//! The protocol byte stream: an in-memory cursor plus the integer, varint
//! and string codecs spoken on the wire.  The surrounding program moves the
//! cursor's bytes over a real transport.

use vstd::prelude::*;
use vstd::arithmetic::div_mod::{lemma_mod_mod, lemma_small_mod};
use vstd::utf8::{valid_utf8, encode_utf8};
use crate::error::RsyncError;
use crate::text::{copy_bytes, string_from_bytes};

verus! {

/// A growable byte buffer with a cursor, standing in for the transport.
/// Writes overwrite at the cursor and extend the buffer as needed; reads
/// consume at the cursor.
#[derive(Debug, Clone)]
pub struct ByteBuffer {
    pub data: Vec<u8>,
    pub pos: usize,
}

/// The bytes still ahead of the cursor.
pub open spec fn remaining(b: ByteBuffer) -> Seq<u8> {
    if b.pos <= b.data@.len() {
        b.data@.skip(b.pos as int)
    } else {
        Seq::empty()
    }
}

/// The buffer contents after a cursor write: zero padding up to the cursor
/// if it sits past the end, then the old prefix, the written bytes, and any
/// old suffix beyond them.
pub open spec fn written(data: Seq<u8>, pos: int, buf: Seq<u8>) -> Seq<u8> {
    let padded = if pos > data.len() {
        data + Seq::new((pos - data.len()) as nat, |i: int| 0u8)
    } else {
        data
    };
    let head = padded.subrange(0, pos);
    let tail = if pos + buf.len() < padded.len() {
        padded.skip(pos + buf.len() as int)
    } else {
        Seq::empty()
    };
    head + buf + tail
}

impl ByteBuffer {
    /// An empty buffer with the cursor at the start.
    pub fn new() -> (r: Self)
        ensures
            r.data@ == Seq::<u8>::empty(),
            r.pos == 0,
    {
        ByteBuffer { data: Vec::new(), pos: 0 }
    }

    /// A buffer over existing bytes, cursor at the start.
    pub fn from_vec(data: Vec<u8>) -> (r: Self)
        ensures
            r.data@ == data@,
            r.pos == 0,
    {
        ByteBuffer { data, pos: 0 }
    }

    /// The cursor position.
    pub fn position(&self) -> (r: usize)
        ensures
            r == self.pos,
    {
        self.pos
    }

    /// Moves the cursor.
    pub fn set_position(&mut self, pos: usize)
        ensures
            final(self).pos == pos,
            final(self).data == old(self).data,
    {
        self.pos = pos;
    }

    /// The underlying bytes.
    pub fn get_ref(&self) -> (r: &Vec<u8>)
        ensures
            r == &self.data,
    {
        &self.data
    }

    /// The underlying bytes, for mutation.
    pub fn get_mut(&mut self) -> (r: &mut Vec<u8>)
        ensures
            *r == old(self).data,
            final(self).data == *final(r),
            final(self).pos == old(self).pos,
    {
        &mut self.data
    }

    /// Writes bytes at the cursor, overwriting and extending as needed.
    pub fn write_bytes(&mut self, buf: &[u8])
        requires
            old(self).pos + buf@.len() <= usize::MAX,
        ensures
            final(self).data@ == written(old(self).data@, old(self).pos as int, buf@),
            final(self).pos == old(self).pos + buf@.len(),
    {
        let ghost orig = *self;
        while self.data.len() < self.pos
            invariant
                self.pos == orig.pos,
                orig.data@.len() <= self.data@.len() <= self.pos
                    || self.data@ == orig.data@,
                self.data@.len() >= orig.data@.len(),
                self.data@.subrange(0, orig.data@.len() as int) == orig.data@,
                forall|i: int|
                    orig.data@.len() <= i < self.data@.len() ==> self.data@[i] == 0u8,
            decreases self.pos - self.data@.len(),
        {
            self.data.push(0);
            proof {
                assert(self.data@.subrange(0, orig.data@.len() as int)
                    =~= self.data@.drop_last().subrange(0, orig.data@.len() as int));
            }
        }
        let ghost padded = self.data@;
        proof {
            if orig.pos > orig.data@.len() {
                assert(padded =~= orig.data@
                    + Seq::new((orig.pos - orig.data@.len()) as nat, |i: int| 0u8));
            } else {
                assert(padded =~= orig.data@);
            }
        }
        let n = buf.len();
        let mut out: Vec<u8> = Vec::new();
        let mut i: usize = 0;
        // old prefix up to the cursor
        while i < self.pos
            invariant
                self.pos <= self.data@.len(),
                self.data@ == padded,
                self.pos == orig.pos,
                0 <= i <= self.pos,
                out@ == padded.subrange(0, i as int),
            decreases self.pos - i,
        {
            let b = self.data[i];
            out.push(b);
            proof {
                assert(padded.subrange(0, i + 1)
                    =~= padded.subrange(0, i as int).push(padded[i as int]));
            }
            i = i + 1;
        }
        // the written bytes
        let mut j: usize = 0;
        while j < n
            invariant
                n == buf@.len(),
                0 <= j <= n,
                self.data@ == padded,
                self.pos == orig.pos,
                self.pos <= padded.len(),
                out@ == padded.subrange(0, self.pos as int) + buf@.subrange(0, j as int),
            decreases n - j,
        {
            out.push(buf[j]);
            proof {
                assert(padded.subrange(0, self.pos as int) + buf@.subrange(0, j + 1)
                    =~= (padded.subrange(0, self.pos as int)
                        + buf@.subrange(0, j as int)).push(buf@[j as int]));
            }
            j = j + 1;
        }
        proof {
            assert(buf@.subrange(0, n as int) =~= buf@);
        }
        // any old suffix past the written range
        let mut k: usize = if n > self.data.len() - self.pos {
            self.data.len()
        } else {
            self.pos + n
        };
        let ghost tail_start = k as int;
        while k < self.data.len()
            invariant
                self.data@ == padded,
                self.pos == orig.pos,
                self.pos <= padded.len(),
                n == buf@.len(),
                tail_start == if self.pos + n < padded.len() {
                    self.pos + n
                } else {
                    padded.len() as int
                },
                tail_start <= k <= padded.len(),
                out@ == padded.subrange(0, self.pos as int) + buf@
                    + padded.subrange(tail_start, k as int),
            decreases self.data@.len() - k,
        {
            let b = self.data[k];
            out.push(b);
            proof {
                assert(padded.subrange(tail_start, k + 1)
                    =~= padded.subrange(tail_start, k as int).push(padded[k as int]));
            }
            k = k + 1;
        }
        proof {
            if self.pos + n < padded.len() {
                assert(padded.skip(self.pos + n) =~= padded.subrange(
                    tail_start, padded.len() as int));
            } else {
                assert(padded.subrange(tail_start, padded.len() as int)
                    =~= Seq::<u8>::empty());
            }
            assert(out@ =~= written(orig.data@, orig.pos as int, buf@));
        }
        self.data = out;
        self.pos = self.pos + n;
    }

    /// Reads exactly `n` bytes at the cursor, or fails without moving when
    /// fewer remain.
    pub fn read_exact_bytes(&mut self, n: usize) -> (r: Result<Vec<u8>, RsyncError>)
        ensures
            remaining(*old(self)).len() >= n ==> (r matches Ok(v)
                && v@ == remaining(*old(self)).take(n as int)
                && final(self).data == old(self).data
                && final(self).pos == old(self).pos + n),
            remaining(*old(self)).len() < n ==> r is Err && *final(self) == *old(self),
    {
        if n == 0 {
            let empty: Vec<u8> = Vec::new();
            proof {
                assert(empty@ =~= remaining(*old(self)).take(0));
            }
            return Ok(empty);
        }
        if self.pos > self.data.len() || self.data.len() - self.pos < n {
            return Err(RsyncError::Io("unexpected end of stream".to_owned()));
        }
        let slice = &self.data.as_slice()[self.pos..self.pos + n];
        let out = copy_bytes(slice);
        proof {
            assert(out@ =~= remaining(*old(self)).take(n as int));
        }
        self.pos = self.pos + n;
        Ok(out)
    }

    /// Reads one byte at the cursor.
    pub fn read_byte(&mut self) -> (r: Result<u8, RsyncError>)
        ensures
            remaining(*old(self)).len() >= 1 ==> (r matches Ok(b)
                && b == remaining(*old(self))[0]
                && final(self).data == old(self).data
                && final(self).pos == old(self).pos + 1),
            remaining(*old(self)).len() == 0 ==> r is Err && *final(self) == *old(self),
    {
        if self.pos >= self.data.len() {
            return Err(RsyncError::Io("unexpected end of stream".to_owned()));
        }
        let b = self.data[self.pos];
        self.pos = self.pos + 1;
        Ok(b)
    }
}

} // verus!

verus! {

/// `256^n`.
pub open spec fn pow256(n: nat) -> int
    decreases n,
{
    if n == 0 {
        1
    } else {
        256 * pow256((n - 1) as nat)
    }
}

/// The `n` little-endian bytes of `u`.
pub open spec fn le_bytes_n(u: int, n: nat) -> Seq<u8>
    decreases n,
{
    if n == 0 {
        Seq::empty()
    } else {
        seq![(u % 256) as u8] + le_bytes_n(u / 256, (n - 1) as nat)
    }
}

/// The `n` big-endian bytes of `u`.
pub open spec fn be_bytes_n(u: int, n: nat) -> Seq<u8>
    decreases n,
{
    if n == 0 {
        Seq::empty()
    } else {
        be_bytes_n(u / 256, (n - 1) as nat) + seq![(u % 256) as u8]
    }
}

/// The value a little-endian byte string denotes.
pub open spec fn le_val(s: Seq<u8>) -> int
    decreases s.len(),
{
    if s.len() == 0 {
        0
    } else {
        s[0] + 256 * le_val(s.drop_first())
    }
}

/// The value a big-endian byte string denotes.
pub open spec fn be_val(s: Seq<u8>) -> int
    decreases s.len(),
{
    if s.len() == 0 {
        0
    } else {
        be_val(s.drop_last()) * 256 + s.last()
    }
}

/// Two's-complement reading: values at or above half the modulus are
/// negative.
pub open spec fn sign_extend(u: int, m: int) -> int {
    if u >= m / 2 {
        u - m
    } else {
        u
    }
}

/// A byte-string value is bounded by the power of its width.
pub proof fn lemma_be_val_bound(s: Seq<u8>)
    ensures
        0 <= be_val(s) < pow256(s.len()),
    decreases s.len(),
{
    if s.len() > 0 {
        lemma_be_val_bound(s.drop_last());
        assert(be_val(s.drop_last()) * 256 + 256 <= pow256((s.len() - 1) as nat) * 256)
            by (nonlinear_arith)
            requires
                be_val(s.drop_last()) < pow256((s.len() - 1) as nat),
        ;
    }
}

/// Reading back the big-endian bytes of a value recovers it.
pub proof fn lemma_be_round_trip(u: int, n: nat)
    requires
        0 <= u < pow256(n),
    ensures
        be_val(be_bytes_n(u, n)) == u,
        be_bytes_n(u, n).len() == n,
    decreases n,
{
    if n == 0 {
    } else {
        assert(u / 256 < pow256((n - 1) as nat)) by (nonlinear_arith)
            requires
                0 <= u < 256 * pow256((n - 1) as nat),
        ;
        lemma_be_round_trip(u / 256, (n - 1) as nat);
        let s = be_bytes_n(u, n);
        assert(s.drop_last() =~= be_bytes_n(u / 256, (n - 1) as nat));
        assert(s.last() == (u % 256) as u8);
    }
}

/// Reading back the little-endian bytes of a value recovers it.
pub proof fn lemma_le_round_trip(u: int, n: nat)
    requires
        0 <= u < pow256(n),
    ensures
        le_val(le_bytes_n(u, n)) == u,
        le_bytes_n(u, n).len() == n,
    decreases n,
{
    if n == 0 {
    } else {
        assert(u / 256 < pow256((n - 1) as nat)) by (nonlinear_arith)
            requires
                0 <= u < 256 * pow256((n - 1) as nat),
        ;
        lemma_le_round_trip(u / 256, (n - 1) as nat);
        let s = le_bytes_n(u, n);
        assert(s.drop_first() =~= le_bytes_n(u / 256, (n - 1) as nat));
        assert(s[0] == (u % 256) as u8);
    }
}

/// The two's-complement representation of a signed value as an unsigned
/// 64-bit integer.
pub fn to_u64_twos(val: i64) -> (r: u64)
    ensures
        r == (val as int) % 0x1_0000_0000_0000_0000,
{
    if val >= 0 {
        val as u64
    } else {
        let m = -(val + 1);
        0xFFFF_FFFF_FFFF_FFFFu64 - (m as u64)
    }
}

/// The `n` big-endian bytes of a 64-bit quantity.
pub fn to_be_bytes(u: u64, n: usize) -> (r: Vec<u8>)
    requires
        n <= 8,
    ensures
        r@ == be_bytes_n(u as int, n as nat),
    decreases n,
{
    if n == 0 {
        Vec::new()
    } else {
        let mut r = to_be_bytes(u / 256, n - 1);
        r.push((u % 256) as u8);
        proof {
            assert(be_bytes_n(u as int, n as nat)
                =~= be_bytes_n(u as int / 256, (n - 1) as nat).push((u as int % 256) as u8));
        }
        r
    }
}

/// The `n` little-endian bytes of a 64-bit quantity.
pub fn to_le_bytes(u: u64, n: usize) -> (r: Vec<u8>)
    requires
        n <= 8,
    ensures
        r@ == le_bytes_n(u as int, n as nat),
    decreases n,
{
    if n == 0 {
        Vec::new()
    } else {
        let mut r: Vec<u8> = Vec::new();
        r.push((u % 256) as u8);
        let mut rest = to_le_bytes(u / 256, n - 1);
        r.append(&mut rest);
        proof {
            assert(le_bytes_n(u as int, n as nat)
                =~= seq![(u as int % 256) as u8] + le_bytes_n(u as int / 256, (n - 1) as nat));
            assert(r@ =~= seq![(u as int % 256) as u8]
                + le_bytes_n(u as int / 256, (n - 1) as nat));
        }
        r
    }
}

/// The big-endian value of at most eight bytes.
pub fn be_value(bytes: &[u8]) -> (r: u64)
    requires
        bytes@.len() <= 8,
    ensures
        r == be_val(bytes@),
{
    let n = bytes.len();
    let mut acc: u64 = 0;
    let mut i: usize = 0;
    proof {
        assert(bytes@.subrange(0, 0) =~= Seq::<u8>::empty());
        lemma_be_val_bound(bytes@.subrange(0, 0));
    }
    while i < n
        invariant
            n == bytes@.len() <= 8,
            0 <= i <= n,
            acc == be_val(bytes@.subrange(0, i as int)),
            0 <= acc < pow256(i as nat),
        decreases n - i,
    {
        proof {
            assert(bytes@.subrange(0, i + 1).drop_last() =~= bytes@.subrange(0, i as int));
            assert(bytes@.subrange(0, i + 1).last() == bytes@[i as int]);
            lemma_be_val_bound(bytes@.subrange(0, i + 1));
            lemma_pow256_le((i + 1) as nat, 8);
            lemma_pow256_values();
            assert(pow256((i + 1) as nat) == 256 * pow256(i as nat));
        }
        acc = acc * 256 + (bytes[i] as u64);
        i = i + 1;
    }
    proof {
        assert(bytes@.subrange(0, n as int) =~= bytes@);
    }
    acc
}

/// The little-endian value of at most eight bytes.
pub fn le_value(bytes: &[u8]) -> (r: u64)
    requires
        bytes@.len() <= 8,
    ensures
        r == le_val(bytes@),
{
    let n = bytes.len();
    let mut acc: u64 = 0;
    let mut i: usize = n;
    proof {
        assert(bytes@.subrange(n as int, n as int) =~= Seq::<u8>::empty());
    }
    // accumulate from the last byte backwards: le_val of a suffix
    while i > 0
        invariant
            n == bytes@.len() <= 8,
            0 <= i <= n,
            acc == le_val(bytes@.subrange(i as int, n as int)),
            0 <= acc < pow256((n - i) as nat),
        decreases i,
    {
        proof {
            assert(bytes@.subrange(i - 1, n as int).drop_first()
                =~= bytes@.subrange(i as int, n as int));
            assert(bytes@.subrange(i - 1, n as int)[0] == bytes@[i - 1]);
            lemma_pow256_le((n - i + 1) as nat, 8);
            lemma_pow256_values();
            assert(pow256((n - i + 1) as nat) == 256 * pow256((n - i) as nat));
            lemma_le_val_bound(bytes@.subrange(i - 1, n as int));
        }
        acc = (bytes[i - 1] as u64) + 256 * acc;
        i = i - 1;
    }
    proof {
        assert(bytes@.subrange(0, n as int) =~= bytes@);
    }
    acc
}

/// A little-endian byte-string value is bounded by the power of its width.
pub proof fn lemma_le_val_bound(s: Seq<u8>)
    ensures
        0 <= le_val(s) < pow256(s.len()),
    decreases s.len(),
{
    if s.len() > 0 {
        lemma_le_val_bound(s.drop_first());
        assert(s[0] + 256 * le_val(s.drop_first()) < 256 * pow256((s.len() - 1) as nat))
            by (nonlinear_arith)
            requires
                0 <= s[0] < 256,
                0 <= le_val(s.drop_first()),
                le_val(s.drop_first()) < pow256((s.len() - 1) as nat),
        ;
    }
}

/// `256^a <= 256^b` for `a <= b`.
pub proof fn lemma_pow256_le(a: nat, b: nat)
    requires
        a <= b,
    ensures
        pow256(a) <= pow256(b),
        pow256(a) >= 1,
    decreases b,
{
    if b > 0 {
        if a == b {
            lemma_pow256_le((a - 1) as nat, (b - 1) as nat);
        } else {
            lemma_pow256_le(a, (b - 1) as nat);
        }
    }
}

/// The concrete powers of 256 up to eight bytes.
pub proof fn lemma_pow256_values()
    ensures
        pow256(0) == 1,
        pow256(1) == 0x100,
        pow256(2) == 0x10000,
        pow256(3) == 0x100_0000,
        pow256(4) == 0x1_0000_0000,
        pow256(5) == 0x100_0000_0000,
        pow256(6) == 0x1_0000_0000_0000,
        pow256(7) == 0x100_0000_0000_0000,
        pow256(8) == 0x1_0000_0000_0000_0000,
{
    assert(pow256(0) == 1);
    assert(pow256(1) == 0x100);
    assert(pow256(2) == 0x10000);
    assert(pow256(3) == 0x100_0000);
    assert(pow256(4) == 0x1_0000_0000);
    assert(pow256(5) == 0x100_0000_0000);
    assert(pow256(6) == 0x1_0000_0000_0000);
    assert(pow256(7) == 0x100_0000_0000_0000);
    assert(pow256(8) == 0x1_0000_0000_0000_0000);
}

} // verus!

verus! {

/// The self-describing varint encoding of a signed 64-bit value: one byte
/// for 0..=250, and escape bytes 251..=255 introducing wider big-endian
/// two's-complement forms.
pub open spec fn varint_encode(v: int) -> Seq<u8> {
    if 0 <= v <= 250 {
        seq![v as u8]
    } else if -128 <= v <= -1 {
        seq![254u8] + be_bytes_n(v % 0x100, 1)
    } else if 251 <= v <= 32767 {
        seq![251u8] + be_bytes_n(v % 0x10000, 2)
    } else if -32768 <= v <= -129 {
        seq![255u8] + be_bytes_n(v % 0x10000, 2)
    } else if -0x8000_0000 <= v <= 0x7FFF_FFFF {
        seq![252u8] + be_bytes_n(v % 0x1_0000_0000, 4)
    } else {
        seq![253u8] + be_bytes_n(v % 0x1_0000_0000_0000_0000, 8)
    }
}

/// Decodes a varint from the head of a byte string: the value and how many
/// bytes it took, or nothing when the bytes run out.
pub open spec fn varint_decode(s: Seq<u8>) -> Option<(int, int)> {
    if s.len() == 0 {
        None
    } else {
        let b = s[0] as int;
        if b <= 250 {
            Some((b, 1))
        } else if b == 251 {
            if s.len() >= 3 {
                Some((sign_extend(be_val(s.subrange(1, 3)), 0x10000), 3))
            } else {
                None
            }
        } else if b == 252 {
            if s.len() >= 5 {
                Some((sign_extend(be_val(s.subrange(1, 5)), 0x1_0000_0000), 5))
            } else {
                None
            }
        } else if b == 253 {
            if s.len() >= 9 {
                Some((sign_extend(be_val(s.subrange(1, 9)), 0x1_0000_0000_0000_0000), 9))
            } else {
                None
            }
        } else if b == 254 {
            if s.len() >= 2 {
                Some((sign_extend(s[1] as int, 0x100), 2))
            } else {
                None
            }
        } else {
            if s.len() >= 3 {
                Some((sign_extend(be_val(s.subrange(1, 3)), 0x10000), 3))
            } else {
                None
            }
        }
    }
}

/// Varint round trip: decoding an encoded value recovers it exactly, having
/// consumed exactly the encoding, whatever follows it.
pub proof fn lemma_varint_round_trip(v: int, rest: Seq<u8>)
    requires
        -0x8000_0000_0000_0000 <= v <= 0x7FFF_FFFF_FFFF_FFFF,
    ensures
        varint_decode(varint_encode(v) + rest)
            == Some((v, varint_encode(v).len() as int)),
{
    let s = varint_encode(v) + rest;
    lemma_pow256_values();
    if 0 <= v <= 250 {
        assert(s[0] == v as u8);
    } else if -128 <= v <= -1 {
        let u = v % 0x100;
        assert(u == v + 0x100);
        lemma_be_round_trip(u, 1);
        assert(s[0] == 254u8);
        assert(s[1] == be_bytes_n(u, 1)[0]);
        assert(s[1] as int == u);
    } else if 251 <= v <= 32767 {
        let u = v % 0x10000;
        lemma_small_mod(v as nat, 0x10000);
        lemma_be_round_trip(u, 2);
        assert(s.subrange(1, 3) =~= be_bytes_n(u, 2));
    } else if -32768 <= v <= -129 {
        let u = v % 0x10000;
        assert(u == v + 0x10000);
        lemma_be_round_trip(u, 2);
        assert(s.subrange(1, 3) =~= be_bytes_n(u, 2));
    } else if -0x8000_0000 <= v <= 0x7FFF_FFFF {
        let u = v % 0x1_0000_0000;
        if v >= 0 {
            lemma_small_mod(v as nat, 0x1_0000_0000);
        } else {
            assert(u == v + 0x1_0000_0000);
        }
        lemma_be_round_trip(u, 4);
        assert(s.subrange(1, 5) =~= be_bytes_n(u, 4));
    } else {
        let u = v % 0x1_0000_0000_0000_0000;
        if v >= 0 {
            lemma_small_mod(v as nat, 0x1_0000_0000_0000_0000);
        } else {
            assert(u == v + 0x1_0000_0000_0000_0000);
        }
        lemma_be_round_trip(u, 8);
        assert(s.subrange(1, 9) =~= be_bytes_n(u, 8));
    }
}

/// The encoded widths, by value range.
pub proof fn lemma_varint_encode_len(v: int)
    ensures
        0 <= v <= 250 ==> varint_encode(v).len() == 1,
        -128 <= v <= -1 ==> varint_encode(v).len() == 2,
        251 <= v <= 32767 || -32768 <= v <= -129 ==> varint_encode(v).len() == 3,
        -0x8000_0000 <= v <= 0x7FFF_FFFF
            && !(-32768 <= v <= 32767) ==> varint_encode(v).len() == 5,
        v < -0x8000_0000 || v > 0x7FFF_FFFF ==> varint_encode(v).len() == 9,
{
    lemma_be_bytes_len(v % 0x100, 1);
    lemma_be_bytes_len(v % 0x10000, 2);
    lemma_be_bytes_len(v % 0x1_0000_0000, 4);
    lemma_be_bytes_len(v % 0x1_0000_0000_0000_0000, 8);
}

/// A big-endian byte string has exactly its requested width.
pub proof fn lemma_be_bytes_len(u: int, n: nat)
    ensures
        be_bytes_n(u, n).len() == n,
    decreases n,
{
    if n > 0 {
        lemma_be_bytes_len(u / 256, (n - 1) as nat);
    }
}

/// A little-endian byte string has exactly its requested width.
pub proof fn lemma_le_bytes_len(u: int, n: nat)
    ensures
        le_bytes_n(u, n).len() == n,
    decreases n,
{
    if n > 0 {
        lemma_le_bytes_len(u / 256, (n - 1) as nat);
    }
}

/// Minimal width: any byte string that decodes to `v` is at least as long
/// as the encoding of `v`.
pub proof fn lemma_varint_minimal(s: Seq<u8>, v: int, consumed: int)
    requires
        varint_decode(s) == Some((v, consumed)),
    ensures
        varint_encode(v).len() <= consumed,
{
    lemma_pow256_values();
    lemma_varint_encode_len(v);
    let b = s[0] as int;
    if b <= 250 {
    } else if b == 251 || b == 255 {
        lemma_be_val_bound(s.subrange(1, 3));
        assert(-0x8000 <= v < 0x8000);
    } else if b == 252 {
        lemma_be_val_bound(s.subrange(1, 5));
        assert(-0x8000_0000 <= v < 0x8000_0000);
    } else if b == 253 {
        lemma_be_val_bound(s.subrange(1, 9));
    } else {
        lemma_be_val_bound(s.subrange(1, 2));
        assert(-0x80 <= v < 0x80);
    }
}

/// A length-delimited byte stream with the protocol codecs on it.
pub struct ProtocolStream {
    pub stream: ByteBuffer,
    pub protocol_version: i32,
}

impl ProtocolStream {
    pub fn new(stream: ByteBuffer, protocol_version: i32) -> (r: Self)
        ensures
            r.stream == stream,
            r.protocol_version == protocol_version,
    {
        Self { stream, protocol_version }
    }

    /// Reads one signed byte.
    pub fn read_i8(&mut self) -> (r: Result<i8, RsyncError>)
        ensures
            final(self).stream.data == old(self).stream.data,
            final(self).protocol_version == old(self).protocol_version,
            remaining(old(self).stream).len() >= 1 ==> (r matches Ok(v)
                && v as int == sign_extend(remaining(old(self).stream)[0] as int, 0x100)
                && final(self).stream.pos == old(self).stream.pos + 1),
            remaining(old(self).stream).len() == 0 ==> r is Err
                && final(self).stream.pos == old(self).stream.pos,
    {
        let b = self.stream.read_byte()?;
        let v: i64 = b as i64;
        let sv = if v >= 128 {
            v - 256
        } else {
            v
        };
        Ok(sv as i8)
    }

    /// Writes one signed byte.
    pub fn write_i8(&mut self, val: i8) -> (r: Result<(), RsyncError>)
        requires
            old(self).stream.pos + 1 <= usize::MAX,
        ensures
            r is Ok,
            final(self).protocol_version == old(self).protocol_version,
            final(self).stream.data@ == written(
                old(self).stream.data@, old(self).stream.pos as int,
                seq![((val as int) % 0x100) as u8]),
            final(self).stream.pos == old(self).stream.pos + 1,
    {
        let v: i64 = val as i64;
        let u: i64 = if v < 0 {
            v + 256
        } else {
            v
        };
        let byte = u as u8;
        let mut buf: Vec<u8> = Vec::new();
        buf.push(byte);
        proof {
            assert(buf@ =~= seq![((val as int) % 0x100) as u8]);
        }
        self.stream.write_bytes(buf.as_slice());
        Ok(())
    }

    /// Reads a little-endian 32-bit integer.
    pub fn read_i32(&mut self) -> (r: Result<i32, RsyncError>)
        ensures
            final(self).stream.data == old(self).stream.data,
            final(self).protocol_version == old(self).protocol_version,
            remaining(old(self).stream).len() >= 4 ==> (r matches Ok(v)
                && v as int == sign_extend(
                    le_val(remaining(old(self).stream).take(4)), 0x1_0000_0000)
                && final(self).stream.pos == old(self).stream.pos + 4),
            remaining(old(self).stream).len() < 4 ==> r is Err
                && final(self).stream.pos == old(self).stream.pos,
    {
        let bytes = self.stream.read_exact_bytes(4)?;
        let u = le_value(bytes.as_slice());
        proof {
            lemma_le_val_bound(bytes@);
            lemma_pow256_values();
        }
        let v: i64 = if u >= 0x8000_0000 {
            (u as i64) - 0x1_0000_0000
        } else {
            u as i64
        };
        Ok(v as i32)
    }

    /// Writes a little-endian 32-bit integer.
    pub fn write_i32(&mut self, val: i32) -> (r: Result<(), RsyncError>)
        requires
            old(self).stream.pos + 4 <= usize::MAX,
        ensures
            r is Ok,
            final(self).protocol_version == old(self).protocol_version,
            final(self).stream.data@ == written(
                old(self).stream.data@, old(self).stream.pos as int,
                le_bytes_n((val as int) % 0x1_0000_0000, 4)),
            final(self).stream.pos == old(self).stream.pos + 4,
    {
        let u = to_u64_twos(val as i64);
        let low = u % 0x1_0000_0000;
        proof {
            lemma_mod_mod(val as int, 0x1_0000_0000, 0x1_0000_0000);
            lemma_le_bytes_len((val as int) % 0x1_0000_0000, 4);
        }
        let buf = to_le_bytes(low, 4);
        self.stream.write_bytes(buf.as_slice());
        Ok(())
    }

    /// Reads a little-endian 64-bit integer.
    pub fn read_i64(&mut self) -> (r: Result<i64, RsyncError>)
        ensures
            final(self).stream.data == old(self).stream.data,
            final(self).protocol_version == old(self).protocol_version,
            remaining(old(self).stream).len() >= 8 ==> (r matches Ok(v)
                && v as int == sign_extend(
                    le_val(remaining(old(self).stream).take(8)), 0x1_0000_0000_0000_0000)
                && final(self).stream.pos == old(self).stream.pos + 8),
            remaining(old(self).stream).len() < 8 ==> r is Err
                && final(self).stream.pos == old(self).stream.pos,
    {
        let bytes = self.stream.read_exact_bytes(8)?;
        let u = le_value(bytes.as_slice());
        proof {
            lemma_le_val_bound(bytes@);
            lemma_pow256_values();
        }
        let v: i64 = if u >= 0x8000_0000_0000_0000 {
            let m = u - 0x8000_0000_0000_0000;
            (m as i64) + (-0x7FFF_FFFF_FFFF_FFFF - 1)
        } else {
            u as i64
        };
        Ok(v)
    }

    /// Writes a little-endian 64-bit integer.
    pub fn write_i64(&mut self, val: i64) -> (r: Result<(), RsyncError>)
        requires
            old(self).stream.pos + 8 <= usize::MAX,
        ensures
            r is Ok,
            final(self).protocol_version == old(self).protocol_version,
            final(self).stream.data@ == written(
                old(self).stream.data@, old(self).stream.pos as int,
                le_bytes_n((val as int) % 0x1_0000_0000_0000_0000, 8)),
            final(self).stream.pos == old(self).stream.pos + 8,
    {
        let u = to_u64_twos(val);
        proof {
            lemma_le_bytes_len((val as int) % 0x1_0000_0000_0000_0000, 8);
        }
        let buf = to_le_bytes(u, 8);
        self.stream.write_bytes(buf.as_slice());
        Ok(())
    }

    /// Reads exactly `n` raw bytes.
    pub fn read_all(&mut self, n: usize) -> (r: Result<Vec<u8>, RsyncError>)
        ensures
            final(self).stream.data == old(self).stream.data,
            final(self).protocol_version == old(self).protocol_version,
            remaining(old(self).stream).len() >= n ==> (r matches Ok(v)
                && v@ == remaining(old(self).stream).take(n as int)
                && final(self).stream.pos == old(self).stream.pos + n),
            remaining(old(self).stream).len() < n ==> r is Err
                && final(self).stream.pos == old(self).stream.pos,
    {
        self.stream.read_exact_bytes(n)
    }

    /// Writes raw bytes.
    pub fn write_all(&mut self, buf: &[u8]) -> (r: Result<(), RsyncError>)
        requires
            old(self).stream.pos + buf@.len() <= usize::MAX,
        ensures
            r is Ok,
            final(self).protocol_version == old(self).protocol_version,
            final(self).stream.data@ == written(
                old(self).stream.data@, old(self).stream.pos as int, buf@),
            final(self).stream.pos == old(self).stream.pos + buf@.len(),
    {
        self.stream.write_bytes(buf);
        Ok(())
    }

    /// Has no buffered state of its own; always succeeds.
    pub fn flush(&mut self) -> (r: Result<(), RsyncError>)
        ensures
            r is Ok,
            *final(self) == *old(self),
    {
        Ok(())
    }

    /// The underlying buffer.
    pub fn get_ref(&self) -> (r: &ByteBuffer)
        ensures
            r == &self.stream,
    {
        &self.stream
    }

    /// The underlying buffer, for mutation.
    pub fn get_mut(&mut self) -> (r: &mut ByteBuffer)
        ensures
            *r == old(self).stream,
            final(self).stream == *final(r),
            final(self).protocol_version == old(self).protocol_version,
    {
        &mut self.stream
    }
}

} // verus!

verus! {

/// The position of the first NUL byte, if any.
pub open spec fn first_zero(s: Seq<u8>) -> Option<int>
    decreases s.len(),
{
    if s.len() == 0 {
        None
    } else if s[0] == 0 {
        Some(0)
    } else {
        match first_zero(s.drop_first()) {
            Some(k) => Some(k + 1),
            None => None,
        }
    }
}

/// A witnessed NUL position is the first zero.
pub proof fn lemma_first_zero_at(s: Seq<u8>, k: int)
    requires
        0 <= k < s.len(),
        s[k] == 0,
        forall|j: int| 0 <= j < k ==> s[j] != 0,
    ensures
        first_zero(s) == Some(k),
    decreases k,
{
    if k > 0 {
        assert(s[0] != 0);
        lemma_first_zero_at(s.drop_first(), k - 1);
    }
}

/// A string without NUL has no first zero.
pub proof fn lemma_first_zero_none(s: Seq<u8>)
    requires
        forall|j: int| 0 <= j < s.len() ==> s[j] != 0,
    ensures
        first_zero(s) is None,
    decreases s.len(),
{
    if s.len() > 0 {
        lemma_first_zero_none(s.drop_first());
    }
}

/// A write at the very end of a buffer appends.
pub proof fn lemma_written_at_end(d: Seq<u8>, buf: Seq<u8>)
    ensures
        written(d, d.len() as int, buf) == d + buf,
{
    assert(written(d, d.len() as int, buf) =~= d + buf);
}

/// Two consecutive cursor writes concatenate.
pub proof fn lemma_written_append(d: Seq<u8>, p: int, a: Seq<u8>, b: Seq<u8>)
    requires
        0 <= p,
    ensures
        written(written(d, p, a), p + a.len(), b) == written(d, p, a + b),
{
    let first = written(d, p, a);
    assert(first.len() >= p + a.len());
    assert(first.subrange(0, p + a.len()) =~= (if p > d.len() {
        d + Seq::new((p - d.len()) as nat, |i: int| 0u8)
    } else {
        d
    }).subrange(0, p) + a);
    assert(written(first, p + a.len(), b) =~= written(d, p, a + b));
}

impl ProtocolStream {
    /// Writes a varint.
    pub fn write_varint(&mut self, val: i64) -> (r: Result<(), RsyncError>)
        requires
            old(self).stream.pos + 9 <= usize::MAX,
        ensures
            r is Ok,
            final(self).protocol_version == old(self).protocol_version,
            final(self).stream.data@ == written(
                old(self).stream.data@, old(self).stream.pos as int,
                varint_encode(val as int)),
            final(self).stream.pos == old(self).stream.pos
                + varint_encode(val as int).len(),
    {
        let ghost v = val as int;
        proof {
            lemma_varint_encode_len(v);
        }
        let mut buf: Vec<u8> = Vec::new();
        if 0 <= val && val <= 250 {
            buf.push(val as u8);
            proof {
                assert(buf@ =~= varint_encode(v));
            }
        } else if -128 <= val && val <= -1 {
            buf.push(254);
            buf.push((val + 256) as u8);
            proof {
                assert(be_bytes_n(v % 0x100, 1) =~= seq![((v + 0x100)) as u8]);
                assert(buf@ =~= varint_encode(v));
            }
        } else if 251 <= val && val <= 32767 {
            buf.push(251);
            let mut tail = to_be_bytes(val as u64 % 0x10000, 2);
            buf.append(&mut tail);
            proof {
                lemma_small_mod(val as nat, 0x10000);
                assert(buf@ =~= seq![251u8] + be_bytes_n(v % 0x10000, 2));
            }
        } else if -32768 <= val && val <= -129 {
            buf.push(255);
            let u = (val + 0x10000) as u64;
            let mut tail = to_be_bytes(u % 0x10000, 2);
            buf.append(&mut tail);
            proof {
                lemma_small_mod((v + 0x10000) as nat, 0x10000);
                assert(v % 0x10000 == v + 0x10000);
                assert(buf@ =~= seq![255u8] + be_bytes_n(v % 0x10000, 2));
            }
        } else if -0x8000_0000 <= val && val <= 0x7FFF_FFFF {
            buf.push(252);
            let u: u64 = if val >= 0 {
                val as u64
            } else {
                (val + 0x1_0000_0000) as u64
            };
            proof {
                if val >= 0 {
                    lemma_small_mod(val as nat, 0x1_0000_0000);
                } else {
                    assert(v % 0x1_0000_0000 == v + 0x1_0000_0000);
                }
            }
            let mut tail = to_be_bytes(u, 4);
            buf.append(&mut tail);
            proof {
                assert(buf@ =~= seq![252u8] + be_bytes_n(v % 0x1_0000_0000, 4));
            }
        } else {
            buf.push(253);
            let u = to_u64_twos(val);
            let mut tail = to_be_bytes(u, 8);
            buf.append(&mut tail);
            proof {
                assert(buf@ =~= seq![253u8] + be_bytes_n(v % 0x1_0000_0000_0000_0000, 8));
            }
        }
        self.stream.write_bytes(buf.as_slice());
        Ok(())
    }

    /// Reads a varint.
    pub fn read_varint(&mut self) -> (r: Result<i64, RsyncError>)
        ensures
            final(self).stream.data == old(self).stream.data,
            final(self).protocol_version == old(self).protocol_version,
            match varint_decode(remaining(old(self).stream)) {
                Some(pair) => r matches Ok(v) && v as int == pair.0
                    && final(self).stream.pos == old(self).stream.pos + pair.1,
                None => r is Err,
            },
    {
        let ghost rem = remaining(old(self).stream);
        let b = self.stream.read_byte()?;
        proof {
            assert(rem[0] == b);
            assert(remaining(self.stream) =~= rem.drop_first());
        }
        if b <= 250 {
            return Ok(b as i64);
        }
        if b == 251 || b == 255 {
            let bytes = self.stream.read_exact_bytes(2)?;
            proof {
                assert(bytes@ =~= rem.subrange(1, 3));
                lemma_be_val_bound(bytes@);
                lemma_pow256_values();
            }
            let u = be_value(bytes.as_slice());
            let v: i64 = if u >= 0x8000 {
                (u as i64) - 0x10000
            } else {
                u as i64
            };
            return Ok(v);
        }
        if b == 252 {
            let bytes = self.stream.read_exact_bytes(4)?;
            proof {
                assert(bytes@ =~= rem.subrange(1, 5));
                lemma_be_val_bound(bytes@);
                lemma_pow256_values();
            }
            let u = be_value(bytes.as_slice());
            let v: i64 = if u >= 0x8000_0000 {
                (u as i64) - 0x1_0000_0000
            } else {
                u as i64
            };
            return Ok(v);
        }
        if b == 253 {
            let bytes = self.stream.read_exact_bytes(8)?;
            proof {
                assert(bytes@ =~= rem.subrange(1, 9));
                lemma_be_val_bound(bytes@);
                lemma_pow256_values();
            }
            let u = be_value(bytes.as_slice());
            let v: i64 = if u >= 0x8000_0000_0000_0000 {
                let m = u - 0x8000_0000_0000_0000;
                (m as i64) + (-0x7FFF_FFFF_FFFF_FFFF - 1)
            } else {
                u as i64
            };
            return Ok(v);
        }
        // b == 254: one sign-extended byte follows
        let second = self.stream.read_byte()?;
        proof {
            assert(second == rem[1]);
        }
        let u = second as i64;
        let v: i64 = if u >= 0x80 {
            u - 0x100
        } else {
            u
        };
        Ok(v)
    }

    /// Reads a NUL-terminated string of at most `max_len` bytes.
    pub fn read_string(&mut self, max_len: usize) -> (r: Result<String, RsyncError>)
        ensures
            final(self).stream.data == old(self).stream.data,
            final(self).protocol_version == old(self).protocol_version,
            match first_zero(remaining(old(self).stream)) {
                None => r is Err,
                Some(k) => if k > max_len {
                    r is Err
                } else if valid_utf8(remaining(old(self).stream).take(k)) {
                    r matches Ok(s) && encode_utf8(s@) == remaining(old(self).stream).take(k)
                        && final(self).stream.pos == old(self).stream.pos + k + 1
                } else {
                    r is Err
                },
            },
    {
        let ghost rem = remaining(old(self).stream);
        let start = self.stream.position();
        let len = self.stream.data.len();
        if start > len {
            proof {
                lemma_first_zero_none(rem);
            }
            return Err(RsyncError::Io("unexpected end of stream".to_owned()));
        }
        let mut k: usize = 0;
        while start + k < len && self.stream.data[start + k] != 0
            invariant
                start == old(self).stream.pos,
                *self == *old(self),
                start <= len,
                len == self.stream.data@.len(),
                rem == remaining(old(self).stream),
                0 <= k <= len - start,
                forall|j: int| 0 <= j < k ==> rem[j] != 0,
            decreases len - start - k,
        {
            k = k + 1;
        }
        if start + k == len {
            proof {
                lemma_first_zero_none(rem);
            }
            return Err(RsyncError::Io("unexpected end of stream".to_owned()));
        }
        proof {
            assert(rem[k as int] == 0);
            lemma_first_zero_at(rem, k as int);
        }
        if k > max_len {
            return Err(RsyncError::Other("String length limit exceeded".to_owned()));
        }
        let bytes = self.stream.read_exact_bytes(k)?;
        let _terminator = self.stream.read_byte()?;
        proof {
            assert(bytes@ =~= rem.take(k as int));
        }
        match string_from_bytes(bytes) {
            Some(s) => Ok(s),
            None => Err(RsyncError::Utf8("invalid UTF-8 in string".to_owned())),
        }
    }

    /// Writes a string followed by a NUL terminator.
    pub fn write_string(&mut self, s: &str) -> (r: Result<(), RsyncError>)
        requires
            old(self).stream.pos + encode_utf8(s@).len() + 1 <= usize::MAX,
        ensures
            r is Ok,
            final(self).protocol_version == old(self).protocol_version,
            final(self).stream.data@ == written(
                old(self).stream.data@, old(self).stream.pos as int,
                encode_utf8(s@) + seq![0u8]),
            final(self).stream.pos == old(self).stream.pos + encode_utf8(s@).len() + 1,
    {
        let ghost d0 = self.stream.data@;
        let ghost p0 = self.stream.pos as int;
        let bytes = s.as_bytes();
        self.stream.write_bytes(bytes);
        let mut z: Vec<u8> = Vec::new();
        z.push(0);
        self.stream.write_bytes(z.as_slice());
        proof {
            assert(z@ =~= seq![0u8]);
            lemma_written_append(d0, p0, encode_utf8(s@), seq![0u8]);
        }
        Ok(())
    }
}

} // verus!
