//! Big-endian fixed-width integers and a cursor over a byte buffer.
//!
//! Every wire-format quantity of the protocol is a fixed-width signed
//! integer stored big-endian. The functions here convert between the
//! machine integers and their wire bytes, and are the only place where
//! byte order and two's-complement representation are reasoned about.

use vstd::prelude::*;

verus! {

/// 256 to the `w`-th power: the number of distinct `w`-byte values.
pub open spec fn pow256(w: nat) -> nat
    decreases w,
{
    if w == 0 {
        1
    } else {
        256 * pow256((w - 1) as nat)
    }
}

/// The `w` big-endian bytes of the unsigned value `x` (taken mod 256^w),
/// most significant byte first.
pub open spec fn be_bytes(x: nat, w: nat) -> Seq<u8>
    decreases w,
{
    if w == 0 {
        Seq::empty()
    } else {
        be_bytes(x / 256, (w - 1) as nat).push((x % 256) as u8)
    }
}

/// The unsigned value spelled by the bytes `s`, most significant first.
pub open spec fn from_be(s: Seq<u8>) -> nat
    decreases s.len(),
{
    if s.len() == 0 {
        0
    } else {
        from_be(s.drop_last()) * 256 + s.last() as nat
    }
}

/// The two's-complement reading of the `w`-byte unsigned value `x`.
pub open spec fn to_signed(x: nat, w: nat) -> int {
    if x >= pow256(w) / 2 {
        x - pow256(w)
    } else {
        x as int
    }
}

/// The `w`-byte two's-complement (unsigned) form of the signed value `v`.
pub open spec fn to_unsigned(v: int, w: nat) -> nat {
    if v < 0 {
        (v + pow256(w)) as nat
    } else {
        v as nat
    }
}

pub proof fn lemma_pow256_vals()
    ensures
        pow256(0) == 1,
        pow256(1) == 0x100,
        pow256(2) == 0x10000,
        pow256(3) == 0x100_0000,
        pow256(4) == 0x1_0000_0000,
        pow256(5) == 0x100_0000_0000,
        pow256(6) == 0x1_0000_0000_0000,
        pow256(7) == 0x100_0000_0000_0000,
        pow256(8) == 0x1_0000_0000_0000_0000,
{
    assert(pow256(0) == 1);
    assert(pow256(1) == 0x100);
    assert(pow256(2) == 0x10000);
    assert(pow256(3) == 0x100_0000);
    assert(pow256(4) == 0x1_0000_0000);
    assert(pow256(5) == 0x100_0000_0000);
    assert(pow256(6) == 0x1_0000_0000_0000);
    assert(pow256(7) == 0x100_0000_0000_0000);
    assert(pow256(8) == 0x1_0000_0000_0000_0000);
}

pub proof fn lemma_pow256_increases(a: nat, b: nat)
    requires
        a <= b,
    ensures
        pow256(a) <= pow256(b),
    decreases b,
{
    if a < b {
        lemma_pow256_increases(a, (b - 1) as nat);
        assert(pow256(b) == 256 * pow256((b - 1) as nat));
    }
}

pub proof fn lemma_be_bytes_len(x: nat, w: nat)
    ensures
        be_bytes(x, w).len() == w,
    decreases w,
{
    if w > 0 {
        lemma_be_bytes_len(x / 256, (w - 1) as nat);
    }
}

pub proof fn lemma_from_be_bound(s: Seq<u8>)
    ensures
        from_be(s) < pow256(s.len()),
    decreases s.len(),
{
    if s.len() > 0 {
        lemma_from_be_bound(s.drop_last());
        assert(pow256(s.len()) == 256 * pow256((s.len() - 1) as nat));
    }
}

/// Reading back the big-endian bytes of `x` yields `x`.
pub proof fn lemma_from_be_of_be(x: nat, w: nat)
    requires
        x < pow256(w),
    ensures
        from_be(be_bytes(x, w)) == x,
    decreases w,
{
    if w > 0 {
        let rest = be_bytes(x / 256, (w - 1) as nat);
        lemma_be_bytes_len(x / 256, (w - 1) as nat);
        assert(rest.push((x % 256) as u8).drop_last() =~= rest);
        assert(x / 256 < pow256((w - 1) as nat)) by (nonlinear_arith)
            requires
                x < 256 * pow256((w - 1) as nat),
                0 <= x,
        ;
        lemma_from_be_of_be(x / 256, (w - 1) as nat);
        assert((x / 256) * 256 + x % 256 == x) by (nonlinear_arith);
    }
}

/// The big-endian bytes of the value `s` spells are `s` itself: the
/// encoding is injective on byte strings of one length.
pub proof fn lemma_be_of_from_be(s: Seq<u8>)
    ensures
        be_bytes(from_be(s), s.len()) == s,
    decreases s.len(),
{
    if s.len() > 0 {
        let front = s.drop_last();
        let x = from_be(s);
        let b = s.last();
        lemma_be_of_from_be(front);
        assert(x == from_be(front) * 256 + b);
        assert(x / 256 == from_be(front) && x % 256 == b) by (nonlinear_arith)
            requires
                x == from_be(front) * 256 + b,
                0 <= from_be(front),
                0 <= b < 256,
        ;
        assert(front.push(s.last()) =~= s);
        assert(be_bytes(x, s.len()) =~= s);
    }
}

// --- signed <-> unsigned, per width ----------------------------------

pub fn i8_to_u8(v: i8) -> (r: u8)
    ensures
        r as nat == to_unsigned(v as int, 1),
{
    proof { lemma_pow256_vals(); }
    if v >= 0 {
        v as u8
    } else {
        ((v - i8::MIN) as u8) + 0x80
    }
}

pub fn u8_to_i8(x: u8) -> (r: i8)
    ensures
        r as int == to_signed(x as nat, 1),
{
    proof { lemma_pow256_vals(); }
    if x >= 0x80 {
        (((x - 0x80) as i16) + (i8::MIN as i16)) as i8
    } else {
        x as i8
    }
}

pub fn i16_to_u16(v: i16) -> (r: u16)
    ensures
        r as nat == to_unsigned(v as int, 2),
{
    proof { lemma_pow256_vals(); }
    if v >= 0 {
        v as u16
    } else {
        ((v - i16::MIN) as u16) + 0x8000
    }
}

pub fn u16_to_i16(x: u16) -> (r: i16)
    ensures
        r as int == to_signed(x as nat, 2),
{
    proof { lemma_pow256_vals(); }
    if x >= 0x8000 {
        (((x - 0x8000) as i32) + (i16::MIN as i32)) as i16
    } else {
        x as i16
    }
}

pub fn i32_to_u32(v: i32) -> (r: u32)
    ensures
        r as nat == to_unsigned(v as int, 4),
{
    proof { lemma_pow256_vals(); }
    if v >= 0 {
        v as u32
    } else {
        ((v - i32::MIN) as u32) + 0x8000_0000
    }
}

pub fn u32_to_i32(x: u32) -> (r: i32)
    ensures
        r as int == to_signed(x as nat, 4),
{
    proof { lemma_pow256_vals(); }
    if x >= 0x8000_0000 {
        (((x - 0x8000_0000) as i64) + (i32::MIN as i64)) as i32
    } else {
        x as i32
    }
}

pub fn i64_to_u64(v: i64) -> (r: u64)
    ensures
        r as nat == to_unsigned(v as int, 8),
{
    proof { lemma_pow256_vals(); }
    if v >= 0 {
        v as u64
    } else {
        ((v - i64::MIN) as u64) + 0x8000_0000_0000_0000
    }
}

pub fn u64_to_i64(x: u64) -> (r: i64)
    ensures
        r as int == to_signed(x as nat, 8),
{
    proof { lemma_pow256_vals(); }
    if x >= 0x8000_0000_0000_0000 {
        ((x - 0x8000_0000_0000_0000) as i64) + i64::MIN
    } else {
        x as i64
    }
}

// --- big-endian exec helpers -----------------------------------------

/// Appends the `w`-byte big-endian encoding of `x` to `out`.
pub fn push_be(out: &mut Vec<u8>, x: u64, w: usize)
    ensures
        final(out)@ == old(out)@ + be_bytes(x as nat, w as nat),
    decreases w,
{
    if w == 0 {
        assert(old(out)@ + be_bytes(x as nat, 0) =~= old(out)@);
    } else {
        push_be(out, x / 256, w - 1);
        out.push((x % 256) as u8);
        assert(final(out)@ =~= old(out)@ + be_bytes(x as nat, w as nat));
    }
}

/// Reads the `w` bytes of `s` starting at `i` as an unsigned
/// big-endian integer.
pub fn be_at(s: &[u8], i: usize, w: usize) -> (x: u64)
    requires
        i + w <= s@.len(),
        w <= 8,
    ensures
        x as nat == from_be(s@.subrange(i as int, i + w)),
{
    proof { lemma_pow256_vals(); }
    let slen = s.len();
    let ghost piece = s@.subrange(i as int, i + w);
    let mut x: u64 = 0;
    let mut j: usize = 0;
    while j < w
        invariant
            j <= w <= 8,
            i + w <= s@.len(),
            s@.len() == slen,
            x as nat == from_be(piece.take(j as int)),
            (x as nat) < pow256(j as nat),
            piece == s@.subrange(i as int, i + w),
        decreases w - j,
    {
        proof {
            lemma_pow256_increases(j as nat, 7);
            lemma_pow256_vals();
            assert(piece.take(j + 1).drop_last() =~= piece.take(j as int));
            assert(piece.take(j + 1).last() == s@[i + j]);
            assert(pow256((j + 1) as nat) == 256 * pow256(j as nat));
        }
        x = x * 256 + (s[i + j] as u64);
        j = j + 1;
    }
    assert(piece.take(w as int) =~= piece);
    x
}

/// The unsigned value spelled little-endian by the `w` bytes of `s`
/// starting at `i`.
pub open spec fn le_value(s: Seq<u8>, i: int, w: int) -> int
    decreases w,
{
    if w <= 0 {
        0
    } else {
        s[i] + 256 * le_value(s, i + 1, w - 1)
    }
}

/// Reads the `w` bytes of `s` starting at `i` as an unsigned
/// little-endian integer.
pub fn le_at(s: &[u8], i: usize, w: usize) -> (x: u64)
    requires
        i + w <= s@.len(),
        w <= 4,
    ensures
        x as int == le_value(s@, i as int, w as int),
        (x as nat) < pow256(w as nat),
{
    proof {
        lemma_pow256_vals();
    }
    let slen = s.len();
    let mut x: u64 = 0;
    let mut j: usize = w;
    while j > 0
        invariant
            j <= w <= 4,
            i + w <= s@.len(),
            s@.len() == slen,
            x as int == le_value(s@, i + j, (w - j) as int),
            (x as nat) < pow256((w - j) as nat),
        decreases j,
    {
        proof {
            lemma_pow256_vals();
            lemma_pow256_increases((w - j) as nat, 3);
            assert(pow256(((w - j) + 1) as nat) == 256 * pow256((w - j) as nat));
        }
        j = j - 1;
        x = (s[i + j] as u64) + 256 * x;
    }
    x
}

/// A read cursor over an owned byte buffer: the decode side's source.
pub struct ByteReader {
    data: Vec<u8>,
    pos: usize,
}

impl ByteReader {
    /// Every byte the reader was built over.
    pub closed spec fn all_bytes(&self) -> Seq<u8> {
        self.data@
    }

    /// The position of the next unconsumed byte.
    pub closed spec fn pos_spec(&self) -> int {
        self.pos as int
    }

    pub open spec fn wf(&self) -> bool {
        0 <= self.pos_spec() <= self.all_bytes().len()
    }

    /// The bytes not yet consumed.
    pub open spec fn remaining(&self) -> Seq<u8> {
        self.all_bytes().skip(self.pos_spec())
    }

    pub fn new(data: Vec<u8>) -> (r: ByteReader)
        ensures
            r.wf(),
            r.all_bytes() == data@,
            r.pos_spec() == 0,
    {
        ByteReader { data, pos: 0 }
    }

    /// Consumes the next `w` bytes as an unsigned big-endian integer,
    /// or consumes nothing if fewer than `w` bytes remain.
    pub fn read_be(&mut self, w: usize) -> (r: Option<u64>)
        requires
            old(self).wf(),
            w <= 8,
        ensures
            final(self).wf(),
            final(self).all_bytes() == old(self).all_bytes(),
            old(self).remaining().len() >= w ==> (r matches Some(x) && x as nat == from_be(
                old(self).remaining().take(w as int),
            ) && final(self).pos_spec() == old(self).pos_spec() + w),
            old(self).remaining().len() < w ==> r is None && *final(self) == *old(self),
    {
        if self.data.len() - self.pos < w {
            return None;
        }
        let x = be_at(self.data.as_slice(), self.pos, w);
        proof {
            assert(self.data@.subrange(self.pos as int, self.pos + w) =~= self.remaining().take(
                w as int,
            ));
        }
        self.pos = self.pos + w;
        Some(x)
    }

    /// Consumes the next `n` bytes verbatim, or consumes nothing if
    /// fewer than `n` bytes remain.
    pub fn take_bytes(&mut self, n: usize) -> (r: Option<Vec<u8>>)
        requires
            old(self).wf(),
        ensures
            final(self).wf(),
            final(self).all_bytes() == old(self).all_bytes(),
            old(self).remaining().len() >= n ==> (r matches Some(v) && v@ == old(
                self,
            ).remaining().take(n as int) && final(self).pos_spec() == old(self).pos_spec() + n),
            old(self).remaining().len() < n ==> r is None && *final(self) == *old(self),
    {
        if self.data.len() - self.pos < n {
            return None;
        }
        let v = vstd::slice::slice_to_vec(
            vstd::slice::slice_subrange(self.data.as_slice(), self.pos, self.pos + n),
        );
        proof {
            assert(self.data@.subrange(self.pos as int, self.pos + n) =~= self.remaining().take(
                n as int,
            ));
        }
        self.pos = self.pos + n;
        Some(v)
    }
}

} // verus!
