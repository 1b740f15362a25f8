//! Wire-protocol primitives shared with the classic tool: the negotiated
//! compatibility flags, the two-byte short integer, the length-prefixed
//! string, and the self-describing 32-bit varint whose leading byte carries
//! both the width and the high value bits.

use vstd::prelude::*;
use vstd::utf8::{valid_utf8, decode_utf8, encode_utf8};
use crate::error::RsyncError;
use crate::stream::{le_bytes_n, le_val, remaining, sign_extend, written, ByteBuffer};
use crate::text::string_from_bytes;

verus! {

pub const CF_INC_RECURSE: u8 = 1;
pub const CF_SYMLINK_TIMES: u8 = 2;
pub const CF_SYMLINK_ICONV: u8 = 4;
pub const CF_SAFE_FLIST: u8 = 8;
pub const CF_AVOID_XATTR_OPTIM: u8 = 16;
pub const CF_CHKSUM_SEED_FIX: u8 = 32;
pub const CF_INPLACE_PARTIAL_DIR: u8 = 64;
pub const CF_VARINT_FLIST_FLAGS: u8 = 128;

pub const XMIT_TOP_DIR: u16 = 1;
pub const XMIT_SAME_MODE: u16 = 2;
pub const XMIT_EXTENDED_FLAGS: u16 = 4;
pub const XMIT_SAME_UID: u16 = 8;
pub const XMIT_SAME_GID: u16 = 16;
pub const XMIT_SAME_NAME: u16 = 32;
pub const XMIT_LONG_NAME: u16 = 64;
pub const XMIT_SAME_TIME: u16 = 128;

pub const NDX_DONE: i32 = -1;
pub const NDX_FLIST_EOF: i32 = -2;

pub const MIN_FILECNT_LOOKAHEAD: usize = 1000;

/// The capability bits both sides agreed on during the handshake.
#[derive(Debug, Clone, Copy, PartialEq, Eq, Structural)]
pub struct CompatFlags {
    pub flags: u8,
}

impl CompatFlags {
    /// The flags this engine announces on a protocol-31 session.
    pub fn new_for_protocol_31() -> (r: Self)
        ensures
            r.flags == (CF_SAFE_FLIST | CF_CHKSUM_SEED_FIX | CF_VARINT_FLIST_FLAGS),
    {
        let mut flags = 0u8;
        flags = flags | CF_SAFE_FLIST;
        flags = flags | CF_CHKSUM_SEED_FIX;
        flags = flags | CF_VARINT_FLIST_FLAGS;
        proof {
            assert(0u8 | 8u8 | 32u8 | 128u8 == (8u8 | 32u8 | 128u8)) by (bit_vector);
        }
        Self { flags }
    }

    /// Writes the flags byte.
    pub fn write(&self, writer: &mut ByteBuffer) -> (r: Result<(), RsyncError>)
        requires
            old(writer).pos + 1 <= usize::MAX,
        ensures
            r is Ok,
            final(writer).data@ == written(
                old(writer).data@, old(writer).pos as int, seq![self.flags]),
            final(writer).pos == old(writer).pos + 1,
    {
        let mut buf: Vec<u8> = Vec::new();
        buf.push(self.flags);
        proof {
            assert(buf@ =~= seq![self.flags]);
        }
        writer.write_bytes(buf.as_slice());
        Ok(())
    }

    /// Reads the flags byte.
    pub fn read(reader: &mut ByteBuffer) -> (r: Result<Self, RsyncError>)
        ensures
            final(reader).data == old(reader).data,
            remaining(*old(reader)).len() >= 1 ==> (r matches Ok(c)
                && c.flags == remaining(*old(reader))[0]
                && final(reader).pos == old(reader).pos + 1),
            remaining(*old(reader)).len() == 0 ==> r is Err,
    {
        let flags = reader.read_byte()?;
        Ok(Self { flags })
    }

    /// Whether a capability bit is set.
    pub fn has_flag(&self, flag: u8) -> (r: bool)
        ensures
            r == (self.flags & flag != 0),
    {
        (self.flags & flag) != 0
    }
}

/// Writes a two-byte little-endian unsigned integer.
pub fn write_shortint(writer: &mut ByteBuffer, val: u16) -> (r: Result<(), RsyncError>)
    requires
        old(writer).pos + 2 <= usize::MAX,
    ensures
        r is Ok,
        final(writer).data@ == written(
            old(writer).data@, old(writer).pos as int, le_bytes_n(val as int, 2)),
        final(writer).pos == old(writer).pos + 2,
{
    proof {
        crate::stream::lemma_le_bytes_len(val as int, 2);
        crate::stream::lemma_pow256_values();
        vstd::arithmetic::div_mod::lemma_small_mod(val as nat, 0x10000);
    }
    let buf = crate::stream::to_le_bytes(val as u64, 2);
    writer.write_bytes(buf.as_slice());
    Ok(())
}

/// Reads a two-byte little-endian unsigned integer.
pub fn read_shortint(reader: &mut ByteBuffer) -> (r: Result<u16, RsyncError>)
    ensures
        final(reader).data == old(reader).data,
        remaining(*old(reader)).len() >= 2 ==> (r matches Ok(v)
            && v == le_val(remaining(*old(reader)).take(2))
            && final(reader).pos == old(reader).pos + 2),
        remaining(*old(reader)).len() < 2 ==> r is Err,
{
    let bytes = reader.read_exact_bytes(2)?;
    proof {
        crate::stream::lemma_le_val_bound(bytes@);
        crate::stream::lemma_pow256_values();
    }
    let v = crate::stream::le_value(bytes.as_slice());
    Ok(v as u16)
}

/// The length-prefixed string encoding: one length byte, or two with the
/// top bit marking the long form, then the bytes.
pub open spec fn vstring_encode(bytes: Seq<u8>) -> Seq<u8> {
    if bytes.len() > 0x7F {
        seq![(bytes.len() as int / 0x100 + 0x80) as u8, (bytes.len() as int % 0x100) as u8]
            + bytes
    } else {
        seq![bytes.len() as u8] + bytes
    }
}

/// Decodes a length-prefixed string: the byte payload and the total bytes
/// consumed.
pub open spec fn vstring_decode(s: Seq<u8>) -> Option<(Seq<u8>, int)> {
    if s.len() == 0 {
        None
    } else {
        let b0 = s[0] as int;
        if b0 >= 0x80 {
            if s.len() >= 2 {
                let len = (b0 - 0x80) * 0x100 + s[1];
                if len <= 0x7FFF && s.len() >= 2 + len {
                    Some((s.subrange(2, 2 + len), 2 + len))
                } else {
                    None
                }
            } else {
                None
            }
        } else {
            if s.len() >= 1 + b0 {
                Some((s.subrange(1, 1 + b0), 1 + b0))
            } else {
                None
            }
        }
    }
}

/// Writes a length-prefixed string of at most 32767 bytes; a longer one is
/// refused and the stream is left unchanged.
pub fn write_vstring(writer: &mut ByteBuffer, s: &str) -> (r: Result<(), RsyncError>)
    requires
        old(writer).pos + encode_utf8(s@).len() + 2 <= usize::MAX,
    ensures
        encode_utf8(s@).len() > 0x7FFF ==> r is Err && *final(writer) == *old(writer),
        encode_utf8(s@).len() <= 0x7FFF ==> r is Ok
            && final(writer).data@ == written(
                old(writer).data@, old(writer).pos as int, vstring_encode(encode_utf8(s@)))
            && final(writer).pos == old(writer).pos + vstring_encode(encode_utf8(s@)).len(),
{
    let bytes = s.as_bytes();
    let len = bytes.len();
    if len > 0x7FFF {
        return Err(RsyncError::Other("vstring too long".to_owned()));
    }
    let mut buf: Vec<u8> = Vec::new();
    if len > 0x7F {
        buf.push((len / 0x100 + 0x80) as u8);
        buf.push((len % 0x100) as u8);
    } else {
        buf.push(len as u8);
    }
    let mut body = crate::text::copy_bytes(bytes);
    buf.append(&mut body);
    proof {
        assert(buf@ =~= vstring_encode(encode_utf8(s@)));
    }
    writer.write_bytes(buf.as_slice());
    Ok(())
}

/// Reads a length-prefixed string; fails on truncated input or bytes that
/// are not UTF-8.
pub fn read_vstring(reader: &mut ByteBuffer) -> (r: Result<String, RsyncError>)
    ensures
        final(reader).data == old(reader).data,
        match vstring_decode(remaining(*old(reader))) {
            None => r is Err,
            Some(pair) => if valid_utf8(pair.0) {
                r matches Ok(v) && v@ == decode_utf8(pair.0)
                    && final(reader).pos == old(reader).pos + pair.1
            } else {
                r is Err
            },
        },
{
    let ghost rem = remaining(*old(reader));
    let b0 = reader.read_byte()?;
    let len: usize = if b0 >= 0x80 {
        let b1 = reader.read_byte()?;
        proof {
            assert(rem.drop_first()[0] == rem[1]);
        }
        (b0 as usize - 0x80) * 0x100 + b1 as usize
    } else {
        b0 as usize
    };
    if len > 0x7FFF {
        return Err(RsyncError::Other("vstring too long".to_owned()));
    }
    proof {
        if b0 >= 0x80 {
            assert(remaining(*reader) =~= rem.skip(2));
        } else {
            assert(remaining(*reader) =~= rem.skip(1));
        }
    }
    let bytes = reader.read_exact_bytes(len)?;
    proof {
        if b0 >= 0x80 {
            assert(bytes@ =~= rem.subrange(2, 2 + len));
        } else {
            assert(bytes@ =~= rem.subrange(1, 1 + len));
        }
    }
    match string_from_bytes(bytes) {
        Some(v) => Ok(v),
        None => Err(RsyncError::Utf8("invalid UTF-8 in vstring".to_owned())),
    }
}

/// The self-describing 32-bit varint: the count of leading set bits in the
/// first byte names the number of little-endian bytes that follow, and the
/// remaining bits of the first byte are the value's highest bits.
pub open spec fn rvarint_encode(v: int) -> Seq<u8> {
    let u = v % 0x1_0000_0000;
    if u < 0x80 {
        seq![u as u8]
    } else if u < 0x4000 {
        seq![(0x80 + u / 0x100) as u8] + le_bytes_n(u % 0x100, 1)
    } else if u < 0x20_0000 {
        seq![(0xC0 + u / 0x1_0000) as u8] + le_bytes_n(u % 0x1_0000, 2)
    } else if u < 0x1000_0000 {
        seq![(0xE0 + u / 0x100_0000) as u8] + le_bytes_n(u % 0x100_0000, 3)
    } else {
        seq![0xF0u8] + le_bytes_n(u, 4)
    }
}

/// How many trailing bytes a first byte announces.
pub open spec fn rvarint_extra(b: int) -> int {
    if b < 0x80 {
        0
    } else if b < 0xC0 {
        1
    } else if b < 0xE0 {
        2
    } else if b < 0xF0 {
        3
    } else if b < 0xF8 {
        4
    } else if b < 0xFC {
        5
    } else {
        6
    }
}

/// The low-order value bits carried in a first byte.
pub open spec fn rvarint_prefix_bits(b: int) -> int {
    let e = rvarint_extra(b);
    if e == 0 {
        b
    } else if e == 1 {
        b - 0x80
    } else if e == 2 {
        b - 0xC0
    } else if e == 3 {
        b - 0xE0
    } else if e == 4 {
        b - 0xF0
    } else if e == 5 {
        b - 0xF8
    } else {
        b - 0xFC
    }
}

/// Decodes a self-describing varint: the signed 32-bit value and the bytes
/// consumed.  Only the lowest four trailing bytes contribute value bits.
pub open spec fn rvarint_decode(s: Seq<u8>) -> Option<(int, int)> {
    if s.len() == 0 {
        None
    } else {
        let b = s[0] as int;
        let e = rvarint_extra(b);
        if s.len() < 1 + e {
            None
        } else {
            let tail = s.subrange(1, 1 + e);
            let composed = le_val(tail + seq![rvarint_prefix_bits(b) as u8]);
            let low32 = composed % 0x1_0000_0000;
            Some((sign_extend(low32, 0x1_0000_0000), 1 + e))
        }
    }
}

/// Writes a varint; the value must sit in the signed 32-bit range the wire
/// form carries.
pub fn write_varint(writer: &mut ByteBuffer, val: i64) -> (r: Result<(), RsyncError>)
    requires
        old(writer).pos + 5 <= usize::MAX,
        -0x8000_0000 <= val <= 0x7FFF_FFFF,
    ensures
        r is Ok,
        final(writer).data@ == written(
            old(writer).data@, old(writer).pos as int, rvarint_encode(val as int)),
        final(writer).pos == old(writer).pos + rvarint_encode(val as int).len(),
{
    let u: u64 = if val >= 0 {
        val as u64
    } else {
        (val + 0x1_0000_0000) as u64
    };
    proof {
        if val >= 0 {
            vstd::arithmetic::div_mod::lemma_small_mod(val as nat, 0x1_0000_0000);
        } else {
            assert((val as int) % 0x1_0000_0000 == val + 0x1_0000_0000);
        }
        crate::stream::lemma_le_bytes_len(u as int % 0x100, 1);
        crate::stream::lemma_le_bytes_len(u as int % 0x1_0000, 2);
        crate::stream::lemma_le_bytes_len(u as int % 0x100_0000, 3);
        crate::stream::lemma_le_bytes_len(u as int, 4);
    }
    let mut buf: Vec<u8> = Vec::new();
    if u < 0x80 {
        buf.push(u as u8);
        proof {
            assert(buf@ =~= rvarint_encode(val as int));
        }
    } else if u < 0x4000 {
        buf.push((0x80 + u / 0x100) as u8);
        let mut tail = crate::stream::to_le_bytes(u % 0x100, 1);
        buf.append(&mut tail);
        proof {
            assert(buf@ =~= rvarint_encode(val as int));
        }
    } else if u < 0x20_0000 {
        buf.push((0xC0 + u / 0x1_0000) as u8);
        let mut tail = crate::stream::to_le_bytes(u % 0x1_0000, 2);
        buf.append(&mut tail);
        proof {
            assert(buf@ =~= rvarint_encode(val as int));
        }
    } else if u < 0x1000_0000 {
        buf.push((0xE0 + u / 0x100_0000) as u8);
        let mut tail = crate::stream::to_le_bytes(u % 0x100_0000, 3);
        buf.append(&mut tail);
        proof {
            assert(buf@ =~= rvarint_encode(val as int));
        }
    } else {
        buf.push(0xF0);
        let mut tail = crate::stream::to_le_bytes(u, 4);
        buf.append(&mut tail);
        proof {
            assert(buf@ =~= rvarint_encode(val as int));
        }
    }
    writer.write_bytes(buf.as_slice());
    Ok(())
}

/// Reads a varint.
pub fn read_varint(reader: &mut ByteBuffer) -> (r: Result<i64, RsyncError>)
    ensures
        final(reader).data == old(reader).data,
        match rvarint_decode(remaining(*old(reader))) {
            None => r is Err,
            Some(pair) => r matches Ok(v) && v as int == pair.0
                && final(reader).pos == old(reader).pos + pair.1,
        },
{
    let ghost rem = remaining(*old(reader));
    let ch = reader.read_byte()?;
    let extra: usize = if ch < 0x80 {
        0
    } else if ch < 0xC0 {
        1
    } else if ch < 0xE0 {
        2
    } else if ch < 0xF0 {
        3
    } else if ch < 0xF8 {
        4
    } else if ch < 0xFC {
        5
    } else {
        6
    };
    let prefix: u8 = if extra == 0 {
        ch
    } else if extra == 1 {
        ch - 0x80
    } else if extra == 2 {
        ch - 0xC0
    } else if extra == 3 {
        ch - 0xE0
    } else if extra == 4 {
        ch - 0xF0
    } else if extra == 5 {
        ch - 0xF8
    } else {
        ch - 0xFC
    };
    proof {
        assert(remaining(*reader) =~= rem.drop_first());
    }
    let tail = reader.read_exact_bytes(extra)?;
    proof {
        assert(tail@ =~= rem.subrange(1, 1 + extra as int));
    }
    let mut all = tail;
    all.push(prefix);
    proof {
        assert(all@ =~= rem.subrange(1, 1 + extra as int)
            + seq![rvarint_prefix_bits(rem[0] as int) as u8]);
        crate::stream::lemma_le_val_bound(all@);
        crate::stream::lemma_pow256_values();
        crate::stream::lemma_pow256_le(all@.len() as nat, 8);
    }
    let composed = crate::stream::le_value(all.as_slice());
    let low = composed % 0x1_0000_0000;
    let v: i64 = if low >= 0x8000_0000 {
        (low as i64) - 0x1_0000_0000
    } else {
        low as i64
    };
    proof {
        vstd::arithmetic::div_mod::lemma_mod_mod(
            le_val(all@), 0x1_0000_0000, 0x1_0000_0000);
    }
    Ok(v)
}

/// The prefix varint takes one to five bytes.
pub proof fn lemma_rvarint_encode_bound(v: int)
    ensures
        1 <= rvarint_encode(v).len() <= 5,
{
    crate::stream::lemma_le_bytes_len(v % 0x1_0000_0000 % 0x100, 1);
    crate::stream::lemma_le_bytes_len(v % 0x1_0000_0000 % 0x1_0000, 2);
    crate::stream::lemma_le_bytes_len(v % 0x1_0000_0000 % 0x100_0000, 3);
    crate::stream::lemma_le_bytes_len(v % 0x1_0000_0000, 4);
}

/// The tri-mode length codec takes two to nine bytes.
pub proof fn lemma_varint30_encode_bound(v: int)
    ensures
        2 <= varint30_encode(v).len() <= 9,
{
    crate::stream::lemma_le_bytes_len(v, 2);
    crate::stream::lemma_le_bytes_len(v, 4);
    crate::stream::lemma_le_bytes_len(v % 0x1_0000_0000_0000_0000, 8);
}

/// The tri-mode offset codec takes three to nine bytes.
pub proof fn lemma_varlong30_encode_bound(v: int)
    ensures
        3 <= varlong30_encode(v).len() <= 9,
{
    crate::stream::lemma_le_bytes_len(v, 3);
    crate::stream::lemma_le_bytes_len(v, 4);
    crate::stream::lemma_le_bytes_len(v % 0x1_0000_0000_0000_0000, 8);
}

/// Round trip: decoding an encoded varint yields the value back, having
/// consumed exactly the encoding, whatever follows.
pub proof fn lemma_rvarint_round_trip(v: int, rest: Seq<u8>)
    requires
        -0x8000_0000 <= v <= 0x7FFF_FFFF,
    ensures
        rvarint_decode(rvarint_encode(v) + rest) == Some((v, rvarint_encode(v).len() as int)),
{
    let u = v % 0x1_0000_0000;
    if v >= 0 {
        vstd::arithmetic::div_mod::lemma_small_mod(v as nat, 0x1_0000_0000);
    } else {
        assert(u == v + 0x1_0000_0000);
    }
    let s = rvarint_encode(v) + rest;
    crate::stream::lemma_pow256_values();
    if u < 0x80 {
        assert(s[0] == u as u8);
        assert(s.subrange(1, 1) =~= Seq::<u8>::empty());
        assert(le_val(Seq::<u8>::empty() + seq![u as u8]) == u) by {
            crate::stream::lemma_le_round_trip(u, 1);
            assert(Seq::<u8>::empty() + seq![u as u8] =~= le_bytes_n(u, 1));
        }
        assert(u % 0x1_0000_0000 == u);
        assert(sign_extend(u, 0x1_0000_0000) == v);
    } else if u < 0x4000 {
        lemma_rvarint_case(v, u, rest, 1, 0x80, 0x100);
    } else if u < 0x20_0000 {
        lemma_rvarint_case(v, u, rest, 2, 0xC0, 0x1_0000);
    } else if u < 0x1000_0000 {
        lemma_rvarint_case(v, u, rest, 3, 0xE0, 0x100_0000);
    } else {
        lemma_rvarint_case(v, u, rest, 4, 0xF0, 0x1_0000_0000);
    }
}

/// One width case of the round trip: the trailing bytes carry `u mod m`,
/// the first byte carries `marker + u / m`.
proof fn lemma_rvarint_case(v: int, u: int, rest: Seq<u8>, e: nat, marker: int, m: int)
    requires
        u == v % 0x1_0000_0000,
        0 <= u < 0x1_0000_0000,
        -0x8000_0000 <= v <= 0x7FFF_FFFF,
        (e == 1 && marker == 0x80 && m == 0x100 && 0x80 <= u < 0x4000)
            || (e == 2 && marker == 0xC0 && m == 0x1_0000 && 0x4000 <= u < 0x20_0000)
            || (e == 3 && marker == 0xE0 && m == 0x100_0000 && 0x20_0000 <= u < 0x1000_0000)
            || (e == 4 && marker == 0xF0 && m == 0x1_0000_0000 && 0x1000_0000 <= u),
    ensures
        rvarint_decode(rvarint_encode(v) + rest) == Some((v, 1 + e as int)),
        rvarint_encode(v).len() == 1 + e,
{
    let s = rvarint_encode(v) + rest;
    crate::stream::lemma_pow256_values();
    crate::stream::lemma_le_bytes_len(u % m, e);
    let first = (marker + u / m) as u8;
    if m == 0x1_0000_0000 {
        vstd::arithmetic::div_mod::lemma_small_mod(u as nat, 0x1_0000_0000);
        assert(u / m == 0) by (nonlinear_arith)
            requires
                0 <= u < m,
        ;
        assert(first == 0xF0u8);
        assert(rvarint_encode(v) =~= seq![first] + le_bytes_n(u % m, e));
    } else {
        assert(rvarint_encode(v) =~= seq![first] + le_bytes_n(u % m, e));
    }
    assert(s[0] == first);
    if m == 0x100 {
        assert(u / m < 0x40) by (nonlinear_arith)
            requires
                m == 0x100,
                0 <= u < 0x4000,
        ;
    } else if m == 0x1_0000 {
        assert(u / m < 0x20) by (nonlinear_arith)
            requires
                m == 0x1_0000,
                0 <= u < 0x20_0000,
        ;
    } else if m == 0x100_0000 {
        assert(u / m < 0x10) by (nonlinear_arith)
            requires
                m == 0x100_0000,
                0 <= u < 0x1000_0000,
        ;
    } else {
        assert(u / m == 0) by (nonlinear_arith)
            requires
                m == 0x1_0000_0000,
                0 <= u < 0x1_0000_0000,
        ;
    }
    assert(rvarint_extra(first as int) == e);
    assert(rvarint_prefix_bits(first as int) == u / m);
    assert(s.subrange(1, 1 + e as int) =~= le_bytes_n(u % m, e));
    let composed_bytes = le_bytes_n(u % m, e) + seq![(u / m) as u8];
    assert(composed_bytes =~= le_bytes_n(u % m, e).push((u / m) as u8));
    lemma_le_snoc(u % m, u / m, e, m);
    assert(le_val(composed_bytes) == u % m + m * (u / m));
    assert(u % m + m * (u / m) == u) by {
        vstd::arithmetic::div_mod::lemma_fundamental_div_mod(u, m);
    }
    assert(le_val(composed_bytes) == u);
    assert(u % 0x1_0000_0000 == u);
    assert(sign_extend(u, 0x1_0000_0000) == v);
}

/// Appending one more significant byte multiplies its weight by the width
/// of the bytes before it.
proof fn lemma_le_snoc(low: int, high: int, e: nat, m: int)
    requires
        0 <= low < m,
        0 <= high < 0x100,
        m == crate::stream::pow256(e),
    ensures
        le_val(le_bytes_n(low, e).push(high as u8)) == low + m * high,
    decreases e,
{
    crate::stream::lemma_le_bytes_len(low, e);
    if e == 0 {
        assert(le_bytes_n(low, 0).push(high as u8) =~= seq![high as u8]);
        assert(le_val(seq![high as u8]) == high + 256 * le_val(
            seq![high as u8].drop_first()));
        assert(seq![high as u8].drop_first() =~= Seq::<u8>::empty());
    } else {
        let s = le_bytes_n(low, e).push(high as u8);
        assert(s[0] == (low % 256) as u8);
        assert(s.drop_first() =~= le_bytes_n(low / 256, (e - 1) as nat).push(high as u8));
        assert(low / 256 < crate::stream::pow256((e - 1) as nat)) by (nonlinear_arith)
            requires
                0 <= low < 256 * crate::stream::pow256((e - 1) as nat),
        ;
        lemma_le_snoc(low / 256, high, (e - 1) as nat, crate::stream::pow256((e - 1) as nat));
        assert(le_val(s) == low % 256 + 256 * (low / 256 + crate::stream::pow256(
            (e - 1) as nat) * high));
        assert(low % 256 + 256 * (low / 256) == low) by {
            vstd::arithmetic::div_mod::lemma_fundamental_div_mod(low, 256);
        }
        assert(256 * (low / 256 + crate::stream::pow256((e - 1) as nat) * high)
            == 256 * (low / 256) + 256 * (crate::stream::pow256((e - 1) as nat) * high))
            by (nonlinear_arith);
        assert(256 * (crate::stream::pow256((e - 1) as nat) * high)
            == (256 * crate::stream::pow256((e - 1) as nat)) * high) by (nonlinear_arith);
    }
}

} // verus!

verus! {

/// The tri-mode length codec: two little-endian bytes for small values, a
/// marker byte and four bytes for standard ones, a marker and eight for the
/// rest.  A two-byte form whose first byte would collide with a marker is
/// promoted to the standard form, keeping the leading byte self-describing.
pub open spec fn varint30_encode(v: int) -> Seq<u8> {
    if 0 <= v < 0x10000 && v % 0x100 < 0xFE {
        le_bytes_n(v, 2)
    } else if 0 <= v < 0x4000_0000 {
        seq![0xFEu8] + le_bytes_n(v, 4)
    } else {
        seq![0xFFu8] + le_bytes_n(v % 0x1_0000_0000_0000_0000, 8)
    }
}

/// Decodes a tri-mode length: the value and the bytes consumed.
pub open spec fn varint30_decode(s: Seq<u8>) -> Option<(int, int)> {
    if s.len() == 0 {
        None
    } else if s[0] == 0xFF {
        if s.len() >= 9 {
            Some((sign_extend(le_val(s.subrange(1, 9)), 0x1_0000_0000_0000_0000), 9))
        } else {
            None
        }
    } else if s[0] == 0xFE {
        if s.len() >= 5 {
            Some((le_val(s.subrange(1, 5)), 5))
        } else {
            None
        }
    } else {
        if s.len() >= 2 {
            Some((le_val(s.take(2)), 2))
        } else {
            None
        }
    }
}

/// Writes a tri-mode length.
pub fn write_varint30(writer: &mut ByteBuffer, val: i64) -> (r: Result<(), RsyncError>)
    requires
        old(writer).pos + 9 <= usize::MAX,
    ensures
        r is Ok,
        final(writer).data@ == written(
            old(writer).data@, old(writer).pos as int, varint30_encode(val as int)),
        final(writer).pos == old(writer).pos + varint30_encode(val as int).len(),
{
    proof {
        crate::stream::lemma_le_bytes_len(val as int, 2);
        crate::stream::lemma_le_bytes_len(val as int, 4);
        crate::stream::lemma_le_bytes_len((val as int) % 0x1_0000_0000_0000_0000, 8);
        crate::stream::lemma_pow256_values();
    }
    if 0 <= val && val < 0x10000 && val % 0x100 < 0xFE {
        proof {
            vstd::arithmetic::div_mod::lemma_small_mod(val as nat, 0x1_0000_0000_0000_0000);
        }
        let buf = crate::stream::to_le_bytes(val as u64, 2);
        writer.write_bytes(buf.as_slice());
    } else if 0 <= val && val < 0x4000_0000 {
        proof {
            vstd::arithmetic::div_mod::lemma_small_mod(val as nat, 0x1_0000_0000_0000_0000);
        }
        let mut buf: Vec<u8> = Vec::new();
        buf.push(0xFE);
        let mut tail = crate::stream::to_le_bytes(val as u64, 4);
        buf.append(&mut tail);
        proof {
            assert(buf@ =~= varint30_encode(val as int));
        }
        writer.write_bytes(buf.as_slice());
    } else {
        let u = crate::stream::to_u64_twos(val);
        let mut buf: Vec<u8> = Vec::new();
        buf.push(0xFF);
        let mut tail = crate::stream::to_le_bytes(u, 8);
        buf.append(&mut tail);
        proof {
            assert(buf@ =~= varint30_encode(val as int));
        }
        writer.write_bytes(buf.as_slice());
    }
    Ok(())
}

/// Reads a tri-mode length.
pub fn read_varint30(reader: &mut ByteBuffer) -> (r: Result<i64, RsyncError>)
    ensures
        final(reader).data == old(reader).data,
        match varint30_decode(remaining(*old(reader))) {
            None => r is Err,
            Some(pair) => r matches Ok(v) && v as int == pair.0
                && final(reader).pos == old(reader).pos + pair.1,
        },
{
    let ghost rem = remaining(*old(reader));
    let b0 = reader.read_byte()?;
    proof {
        assert(remaining(*reader) =~= rem.drop_first());
        crate::stream::lemma_pow256_values();
    }
    if b0 == 0xFF {
        let bytes = reader.read_exact_bytes(8)?;
        proof {
            assert(bytes@ =~= rem.subrange(1, 9));
            crate::stream::lemma_le_val_bound(bytes@);
        }
        let u = crate::stream::le_value(bytes.as_slice());
        let v: i64 = if u >= 0x8000_0000_0000_0000 {
            let m = u - 0x8000_0000_0000_0000;
            (m as i64) + (-0x7FFF_FFFF_FFFF_FFFF - 1)
        } else {
            u as i64
        };
        return Ok(v);
    }
    if b0 == 0xFE {
        let bytes = reader.read_exact_bytes(4)?;
        proof {
            assert(bytes@ =~= rem.subrange(1, 5));
            crate::stream::lemma_le_val_bound(bytes@);
        }
        let u = crate::stream::le_value(bytes.as_slice());
        return Ok(u as i64);
    }
    let b1 = reader.read_byte()?;
    proof {
        assert(b1 == rem[1]);
        assert(rem.take(2) =~= seq![rem[0], rem[1]]);
        assert(rem.take(2).drop_first() =~= seq![rem[1]]);
        assert(seq![rem[1]].drop_first() =~= Seq::<u8>::empty());
        assert(le_val(Seq::<u8>::empty()) == 0);
        assert(le_val(seq![rem[1]]) == rem[1]);
        assert(le_val(rem.take(2)) == rem[0] + 256 * rem[1]);
    }
    Ok(b0 as i64 + 256 * (b1 as i64))
}

/// The tri-mode offset codec: three little-endian bytes for small offsets,
/// a marker and four bytes for 31-bit ones, a marker and eight otherwise;
/// the same self-describing discipline as the length codec.
pub open spec fn varlong30_encode(v: int) -> Seq<u8> {
    if 0 <= v < 0x100_0000 && v % 0x100 < 0xFE {
        le_bytes_n(v, 3)
    } else if 0 <= v < 0x8000_0000 {
        seq![0xFEu8] + le_bytes_n(v, 4)
    } else {
        seq![0xFFu8] + le_bytes_n(v % 0x1_0000_0000_0000_0000, 8)
    }
}

/// Decodes a tri-mode offset.
pub open spec fn varlong30_decode(s: Seq<u8>) -> Option<(int, int)> {
    if s.len() == 0 {
        None
    } else if s[0] == 0xFF {
        if s.len() >= 9 {
            Some((sign_extend(le_val(s.subrange(1, 9)), 0x1_0000_0000_0000_0000), 9))
        } else {
            None
        }
    } else if s[0] == 0xFE {
        if s.len() >= 5 {
            Some((le_val(s.subrange(1, 5)), 5))
        } else {
            None
        }
    } else {
        if s.len() >= 3 {
            Some((le_val(s.take(3)), 3))
        } else {
            None
        }
    }
}

/// Writes a tri-mode offset.
pub fn write_varlong30(writer: &mut ByteBuffer, val: i64) -> (r: Result<(), RsyncError>)
    requires
        old(writer).pos + 9 <= usize::MAX,
    ensures
        r is Ok,
        final(writer).data@ == written(
            old(writer).data@, old(writer).pos as int, varlong30_encode(val as int)),
        final(writer).pos == old(writer).pos + varlong30_encode(val as int).len(),
{
    proof {
        crate::stream::lemma_le_bytes_len(val as int, 3);
        crate::stream::lemma_le_bytes_len(val as int, 4);
        crate::stream::lemma_le_bytes_len((val as int) % 0x1_0000_0000_0000_0000, 8);
        crate::stream::lemma_pow256_values();
    }
    if 0 <= val && val < 0x100_0000 && val % 0x100 < 0xFE {
        proof {
            vstd::arithmetic::div_mod::lemma_small_mod(val as nat, 0x1_0000_0000_0000_0000);
        }
        let buf = crate::stream::to_le_bytes(val as u64, 3);
        writer.write_bytes(buf.as_slice());
    } else if 0 <= val && val < 0x8000_0000 {
        proof {
            vstd::arithmetic::div_mod::lemma_small_mod(val as nat, 0x1_0000_0000_0000_0000);
        }
        let mut buf: Vec<u8> = Vec::new();
        buf.push(0xFE);
        let mut tail = crate::stream::to_le_bytes(val as u64, 4);
        buf.append(&mut tail);
        proof {
            assert(buf@ =~= varlong30_encode(val as int));
        }
        writer.write_bytes(buf.as_slice());
    } else {
        let u = crate::stream::to_u64_twos(val);
        let mut buf: Vec<u8> = Vec::new();
        buf.push(0xFF);
        let mut tail = crate::stream::to_le_bytes(u, 8);
        buf.append(&mut tail);
        proof {
            assert(buf@ =~= varlong30_encode(val as int));
        }
        writer.write_bytes(buf.as_slice());
    }
    Ok(())
}

/// Reads a tri-mode offset.
pub fn read_varlong30(reader: &mut ByteBuffer) -> (r: Result<i64, RsyncError>)
    ensures
        final(reader).data == old(reader).data,
        match varlong30_decode(remaining(*old(reader))) {
            None => r is Err,
            Some(pair) => r matches Ok(v) && v as int == pair.0
                && final(reader).pos == old(reader).pos + pair.1,
        },
{
    let ghost rem = remaining(*old(reader));
    let b0 = reader.read_byte()?;
    proof {
        assert(remaining(*reader) =~= rem.drop_first());
        crate::stream::lemma_pow256_values();
    }
    if b0 == 0xFF {
        let bytes = reader.read_exact_bytes(8)?;
        proof {
            assert(bytes@ =~= rem.subrange(1, 9));
            crate::stream::lemma_le_val_bound(bytes@);
        }
        let u = crate::stream::le_value(bytes.as_slice());
        let v: i64 = if u >= 0x8000_0000_0000_0000 {
            let m = u - 0x8000_0000_0000_0000;
            (m as i64) + (-0x7FFF_FFFF_FFFF_FFFF - 1)
        } else {
            u as i64
        };
        return Ok(v);
    }
    if b0 == 0xFE {
        let bytes = reader.read_exact_bytes(4)?;
        proof {
            assert(bytes@ =~= rem.subrange(1, 5));
            crate::stream::lemma_le_val_bound(bytes@);
        }
        let u = crate::stream::le_value(bytes.as_slice());
        return Ok(u as i64);
    }
    let rest = reader.read_exact_bytes(2)?;
    proof {
        assert(rest@ =~= rem.subrange(1, 3));
        assert(rem.take(3) =~= seq![rem[0]] + rem.subrange(1, 3));
        assert(rem.take(3).drop_first() =~= rem.subrange(1, 3));
        assert(rem.take(3)[0] == rem[0]);
        crate::stream::lemma_le_val_bound(rest@);
        assert(le_val(rem.take(3)) == rem[0] + 256 * le_val(rem.subrange(1, 3)));
    }
    let low = crate::stream::le_value(rest.as_slice());
    Ok(b0 as i64 + 256 * (low as i64))
}

/// Round trip for the length codec over the full signed 64-bit range.
pub proof fn lemma_varint30_round_trip(v: int, rest: Seq<u8>)
    requires
        -0x8000_0000_0000_0000 <= v <= 0x7FFF_FFFF_FFFF_FFFF,
    ensures
        varint30_decode(varint30_encode(v) + rest)
            == Some((v, varint30_encode(v).len() as int)),
{
    let s = varint30_encode(v) + rest;
    crate::stream::lemma_pow256_values();
    if 0 <= v < 0x10000 && v % 0x100 < 0xFE {
        crate::stream::lemma_le_round_trip(v, 2);
        assert(le_bytes_n(v, 2)[0] == (v % 0x100) as u8);
        assert(s[0] as int == v % 0x100);
        assert(s.take(2) =~= le_bytes_n(v, 2));
    } else if 0 <= v < 0x4000_0000 {
        crate::stream::lemma_le_round_trip(v, 4);
        crate::stream::lemma_le_bytes_len(v, 4);
        assert(s[0] == 0xFE);
        assert(s.subrange(1, 5) =~= le_bytes_n(v, 4));
    } else {
        let u = v % 0x1_0000_0000_0000_0000;
        if v >= 0 {
            vstd::arithmetic::div_mod::lemma_small_mod(v as nat, 0x1_0000_0000_0000_0000);
        } else {
            assert(u == v + 0x1_0000_0000_0000_0000);
        }
        crate::stream::lemma_le_round_trip(u, 8);
        crate::stream::lemma_le_bytes_len(u, 8);
        assert(s[0] == 0xFF);
        assert(s.subrange(1, 9) =~= le_bytes_n(u, 8));
        assert(sign_extend(u, 0x1_0000_0000_0000_0000) == v);
    }
}

/// Round trip for the offset codec over the full signed 64-bit range.
pub proof fn lemma_varlong30_round_trip(v: int, rest: Seq<u8>)
    requires
        -0x8000_0000_0000_0000 <= v <= 0x7FFF_FFFF_FFFF_FFFF,
    ensures
        varlong30_decode(varlong30_encode(v) + rest)
            == Some((v, varlong30_encode(v).len() as int)),
{
    let s = varlong30_encode(v) + rest;
    crate::stream::lemma_pow256_values();
    if 0 <= v < 0x100_0000 && v % 0x100 < 0xFE {
        crate::stream::lemma_le_round_trip(v, 3);
        assert(le_bytes_n(v, 3)[0] == (v % 0x100) as u8);
        assert(s[0] as int == v % 0x100);
        assert(s.take(3) =~= le_bytes_n(v, 3));
    } else if 0 <= v < 0x8000_0000 {
        crate::stream::lemma_le_round_trip(v, 4);
        crate::stream::lemma_le_bytes_len(v, 4);
        assert(s[0] == 0xFE);
        assert(s.subrange(1, 5) =~= le_bytes_n(v, 4));
    } else {
        let u = v % 0x1_0000_0000_0000_0000;
        if v >= 0 {
            vstd::arithmetic::div_mod::lemma_small_mod(v as nat, 0x1_0000_0000_0000_0000);
        } else {
            assert(u == v + 0x1_0000_0000_0000_0000);
        }
        crate::stream::lemma_le_round_trip(u, 8);
        crate::stream::lemma_le_bytes_len(u, 8);
        assert(s[0] == 0xFF);
        assert(s.subrange(1, 9) =~= le_bytes_n(u, 8));
        assert(sign_extend(u, 0x1_0000_0000_0000_0000) == v);
    }
}

} // verus!

verus! {

/// The running state of the file-index codec: indices travel as
/// differences against the previous index of the same sign.
#[derive(Debug, Clone, Copy, PartialEq, Eq, Structural)]
pub struct NdxState {
    pub prev_positive: i32,
    pub prev_negative: i32,
}

impl NdxState {
    pub fn new() -> (r: Self)
        ensures
            r.prev_positive == -1,
            r.prev_negative == -1,
    {
        Self { prev_positive: -1, prev_negative: -1 }
    }
}

/// The bytes of one non-negative index value against its predecessor: a
/// single difference byte, a marker with a two-byte difference, or a marker
/// carrying the full index in four bytes.
pub open spec fn ndx_sub_encode(value: int, prev: int) -> Seq<u8> {
    let diff = value - prev;
    if 1 <= diff <= 0xFD {
        seq![diff as u8]
    } else if 0 <= diff <= 0x7FFF {
        seq![0xFEu8, (diff / 0x100) as u8, (diff % 0x100) as u8]
    } else {
        seq![
            0xFEu8,
            (0x80 + value / 0x100_0000) as u8,
            (value % 0x100) as u8,
            ((value / 0x100) % 0x100) as u8,
            ((value / 0x10000) % 0x100) as u8,
        ]
    }
}

/// The bytes of one file index: a zero byte for the end-of-phase marker, a
/// sign marker plus the magnitude's encoding for negative indices, the
/// plain encoding otherwise.  Below protocol 30 the index travels as four
/// raw little-endian bytes.
pub open spec fn ndx_encode(ndx: int, prev_pos: int, prev_neg: int, pv: int) -> Seq<u8> {
    if pv < 30 {
        le_bytes_n(ndx % 0x1_0000_0000, 4)
    } else if ndx == -1 {
        seq![0u8]
    } else if ndx >= 0 {
        ndx_sub_encode(ndx, prev_pos)
    } else {
        seq![0xFFu8] + ndx_sub_encode(-ndx, prev_neg)
    }
}

/// Decodes one non-negative value against its predecessor.
pub open spec fn ndx_sub_decode(s: Seq<u8>, prev: int) -> Option<(int, int)> {
    if s.len() == 0 {
        None
    } else if s[0] == 0xFE {
        if s.len() < 3 {
            None
        } else if s[1] >= 0x80 {
            if s.len() < 5 {
                None
            } else {
                Some((s[2] + s[3] * 0x100 + s[4] * 0x10000 + (s[1] - 0x80) * 0x100_0000, 5))
            }
        } else {
            Some((s[1] * 0x100 + s[2] + prev, 3))
        }
    } else {
        Some((s[0] + prev, 1))
    }
}

/// Decodes one file index: the index, the bytes consumed, and the two state
/// fields after the read.
pub open spec fn ndx_decode(s: Seq<u8>, prev_pos: int, prev_neg: int, pv: int) -> Option<
    (int, int, int, int)> {
    if pv < 30 {
        if s.len() < 4 {
            None
        } else {
            Some((sign_extend(le_val(s.take(4)), 0x1_0000_0000), 4, prev_pos, prev_neg))
        }
    } else if s.len() == 0 {
        None
    } else if s[0] == 0 {
        Some((-1, 1, prev_pos, prev_neg))
    } else if s[0] == 0xFF {
        match ndx_sub_decode(s.skip(1), prev_neg) {
            None => None,
            Some(p) => Some((-p.0, 1 + p.1, prev_pos, p.0)),
        }
    } else {
        match ndx_sub_decode(s, prev_pos) {
            None => None,
            Some(p) => Some((p.0, p.1, p.0, prev_neg)),
        }
    }
}

/// Writes one file index against the running state.
pub fn write_ndx(
    writer: &mut ByteBuffer,
    ndx: i32,
    state: &mut NdxState,
    protocol_version: i32,
) -> (r: Result<(), RsyncError>)
    requires
        old(writer).pos + 6 <= usize::MAX,
        protocol_version >= 30 ==> ndx >= -0x7FFF_FFFF,
    ensures
        r is Ok,
        final(writer).data@ == written(old(writer).data@, old(writer).pos as int,
            ndx_encode(ndx as int, old(state).prev_positive as int,
                old(state).prev_negative as int, protocol_version as int)),
        final(writer).pos == old(writer).pos + ndx_encode(ndx as int,
            old(state).prev_positive as int, old(state).prev_negative as int,
            protocol_version as int).len(),
        final(state).prev_positive as int == (if protocol_version >= 30 && ndx >= 0 {
            ndx as int
        } else {
            old(state).prev_positive as int
        }),
        final(state).prev_negative as int == (if protocol_version >= 30 && ndx < -1 {
            -(ndx as int)
        } else {
            old(state).prev_negative as int
        }),
{
    if protocol_version < 30 {
        let u = crate::stream::to_u64_twos(ndx as i64);
        let low = u % 0x1_0000_0000;
        proof {
            vstd::arithmetic::div_mod::lemma_mod_mod(ndx as int, 0x1_0000_0000,
                0x1_0000_0000);
            crate::stream::lemma_le_bytes_len((ndx as int) % 0x1_0000_0000, 4);
        }
        let buf = crate::stream::to_le_bytes(low, 4);
        writer.write_bytes(buf.as_slice());
        return Ok(());
    }
    if ndx == -1 {
        let mut buf: Vec<u8> = Vec::new();
        buf.push(0);
        proof {
            assert(buf@ =~= seq![0u8]);
        }
        writer.write_bytes(buf.as_slice());
        return Ok(());
    }
    let mut buf: Vec<u8> = Vec::new();
    if ndx >= 0 {
        push_sub_encoding(&mut buf, ndx, state.prev_positive);
        state.prev_positive = ndx;
        proof {
            assert(buf@ =~= ndx_encode(ndx as int, old(state).prev_positive as int,
                old(state).prev_negative as int, protocol_version as int));
        }
    } else {
        buf.push(0xFF);
        let magnitude = -ndx;
        push_sub_encoding(&mut buf, magnitude, state.prev_negative);
        state.prev_negative = magnitude;
        proof {
            assert(buf@ =~= seq![0xFFu8] + ndx_sub_encode(-(ndx as int),
                old(state).prev_negative as int));
        }
    }
    writer.write_bytes(buf.as_slice());
    Ok(())
}

/// Appends the difference encoding of one non-negative value.
fn push_sub_encoding(buf: &mut Vec<u8>, value: i32, prev: i32)
    requires
        value >= 0,
    ensures
        final(buf)@ == old(buf)@ + ndx_sub_encode(value as int, prev as int),
{
    let ghost base = buf@;
    let diff: i64 = value as i64 - prev as i64;
    if 1 <= diff && diff <= 0xFD {
        buf.push(diff as u8);
        proof {
            assert(buf@ =~= base + ndx_sub_encode(value as int, prev as int));
        }
    } else if 0 <= diff && diff <= 0x7FFF {
        buf.push(0xFE);
        buf.push((diff / 0x100) as u8);
        buf.push((diff % 0x100) as u8);
        proof {
            assert(buf@ =~= base + ndx_sub_encode(value as int, prev as int));
        }
    } else {
        buf.push(0xFE);
        buf.push((0x80 + value / 0x100_0000) as u8);
        buf.push((value % 0x100) as u8);
        buf.push(((value / 0x100) % 0x100) as u8);
        buf.push(((value / 0x10000) % 0x100) as u8);
        proof {
            assert(buf@ =~= base + ndx_sub_encode(value as int, prev as int));
        }
    }
}

/// Reads one file index, updating the running state.  An index or state
/// value that does not fit a 32-bit integer is refused.
pub fn read_ndx(
    reader: &mut ByteBuffer,
    state: &mut NdxState,
    protocol_version: i32,
) -> (r: Result<i32, RsyncError>)
    ensures
        final(reader).data == old(reader).data,
        match ndx_decode(remaining(*old(reader)), old(state).prev_positive as int,
            old(state).prev_negative as int, protocol_version as int) {
            None => r is Err,
            Some(t) => if -0x8000_0000 <= t.0 < 0x8000_0000
                && -0x8000_0000 <= t.2 < 0x8000_0000 && -0x8000_0000 <= t.3 < 0x8000_0000 {
                r matches Ok(v) && v as int == t.0
                    && final(reader).pos == old(reader).pos + t.1
                    && final(state).prev_positive as int == t.2
                    && final(state).prev_negative as int == t.3
            } else {
                r is Err
            },
        },
{
    let ghost rem = remaining(*old(reader));
    if protocol_version < 30 {
        let bytes = reader.read_exact_bytes(4)?;
        proof {
            assert(bytes@ =~= rem.take(4));
            crate::stream::lemma_le_val_bound(bytes@);
            crate::stream::lemma_pow256_values();
        }
        let u = crate::stream::le_value(bytes.as_slice());
        let v: i64 = if u >= 0x8000_0000 {
            (u as i64) - 0x1_0000_0000
        } else {
            u as i64
        };
        return Ok(v as i32);
    }
    let b = reader.read_byte()?;
    proof {
        assert(remaining(*reader) =~= rem.drop_first());
    }
    if b == 0 {
        return Ok(NDX_DONE);
    }
    if b == 0xFF {
        let ghost sub = rem.drop_first();
        let (num, _consumed) = read_sub_encoding(reader, state.prev_negative, Ghost(sub))?;
        if num > 0x7FFF_FFFF {
            return Err(RsyncError::Other("file index out of range".to_owned()));
        }
        if num < -0x8000_0000 {
            return Err(RsyncError::Other("file index out of range".to_owned()));
        }
        state.prev_negative = num as i32;
        if num == -0x8000_0000 {
            return Err(RsyncError::Other("file index out of range".to_owned()));
        }
        return Ok((-num) as i32);
    }
    let ghost sub = rem;
    // the first byte is part of the difference encoding; step back over it
    let pos_now = reader.position();
    reader.set_position(pos_now - 1);
    proof {
        assert(remaining(*reader) =~= rem);
    }
    let (num, _consumed) = read_sub_encoding(reader, state.prev_positive, Ghost(sub))?;
    if num > 0x7FFF_FFFF || num < -0x8000_0000 {
        return Err(RsyncError::Other("file index out of range".to_owned()));
    }
    state.prev_positive = num as i32;
    Ok(num as i32)
}

/// Reads one difference encoding; the result may exceed the 32-bit range
/// when the stream is hostile, so the caller checks it.
fn read_sub_encoding(
    reader: &mut ByteBuffer,
    prev: i32,
    Ghost(sub): Ghost<Seq<u8>>,
) -> (r: Result<(i64, usize), RsyncError>)
    requires
        sub == remaining(*old(reader)),
    ensures
        final(reader).data == old(reader).data,
        match ndx_sub_decode(sub, prev as int) {
            None => r is Err,
            Some(p) => r matches Ok(t) && t.0 as int == p.0 && t.1 as int == p.1
                && final(reader).pos == old(reader).pos + p.1,
        },
{
    let b0 = reader.read_byte()?;
    proof {
        assert(remaining(*reader) =~= sub.drop_first());
    }
    if b0 != 0xFE {
        return Ok((b0 as i64 + prev as i64, 1));
    }
    let b1 = reader.read_byte()?;
    proof {
        assert(b1 == sub[1]);
        assert(remaining(*reader) =~= sub.skip(2));
    }
    if b1 >= 0x80 {
        let bytes = reader.read_exact_bytes(3)?;
        proof {
            assert(bytes@ =~= sub.subrange(2, 5));
            assert(bytes@[0] == sub[2] && bytes@[1] == sub[3] && bytes@[2] == sub[4]);
        }
        let value = bytes[0] as i64 + bytes[1] as i64 * 0x100 + bytes[2] as i64 * 0x10000
            + (b1 as i64 - 0x80) * 0x100_0000;
        return Ok((value, 5));
    }
    let b2 = reader.read_byte()?;
    proof {
        assert(b2 == sub[2]);
    }
    Ok((b1 as i64 * 0x100 + b2 as i64 + prev as i64, 3))
}

} // verus!
