//! The multiplex framing layer: every write becomes one or more 4-byte
//! little-endian headers — the tag in the top byte, the payload length in
//! the lower 24 bits — followed by the payload.  Data frames reassemble
//! into a plain byte stream; tags one to three above the base carry
//! out-of-band error, info and warning text.

use vstd::prelude::*;
use crate::error::RsyncError;
use crate::stream::{le_bytes_n, le_val, remaining, written, ByteBuffer};
use crate::text::copy_bytes;

verus! {

/// The tag value of plain data frames.
pub const MPLEX_BASE: u8 = 7;

/// The largest payload one frame can carry.
pub const MAX_MPLEX_DATA: usize = 0xFFFFFF;

/// The header bytes of a frame with the given tag and payload length.
pub open spec fn frame_header(tag: int, len: int) -> Seq<u8> {
    le_bytes_n(tag * 0x100_0000 + len, 4)
}

/// A write's on-wire form: the data cut into maximal frames.
pub open spec fn mux_chunks(data: Seq<u8>) -> Seq<u8>
    decreases data.len(),
{
    if data.len() == 0 {
        Seq::empty()
    } else {
        let c = if data.len() > 0xFFFFFF {
            0xFFFFFF as int
        } else {
            data.len() as int
        };
        frame_header(MPLEX_BASE as int, c) + data.take(c) + mux_chunks(data.skip(c))
    }
}

/// Parses one frame: its tag, payload, and total bytes consumed.
pub open spec fn parse_frame(s: Seq<u8>) -> Option<(int, Seq<u8>, int)> {
    if s.len() < 4 {
        None
    } else {
        let header = le_val(s.take(4));
        let tag = header / 0x100_0000;
        let len = header % 0x100_0000;
        if s.len() >= 4 + len {
            Some((tag, s.subrange(4, 4 + len), 4 + len))
        } else {
            None
        }
    }
}

/// What the next read meets in the stream: a clean end between frames, a
/// frame cut short, an out-of-band message, or the next non-empty data
/// payload together with the stream bytes up to and including its frame.
#[verifier::ext_equal]
pub enum DemuxResult {
    End,
    Truncated,
    Message,
    Data { payload: Seq<u8>, consumed: int },
}

/// Walks frames until one of the four outcomes: empty data frames and
/// control frames outside the message tags are skipped.
pub open spec fn demux_next(s: Seq<u8>) -> DemuxResult
    decreases s.len(),
{
    if s.len() == 0 {
        DemuxResult::End
    } else {
        match parse_frame(s) {
            None => DemuxResult::Truncated,
            Some(f) => if f.0 == MPLEX_BASE && f.1.len() > 0 {
                DemuxResult::Data { payload: f.1, consumed: f.2 }
            } else if MPLEX_BASE < f.0 <= MPLEX_BASE + 3 {
                DemuxResult::Message
            } else {
                match demux_next(s.skip(f.2)) {
                    DemuxResult::Data { payload, consumed } => DemuxResult::Data {
                        payload,
                        consumed: f.2 + consumed,
                    },
                    other => other,
                }
            },
        }
    }
}

/// A data outcome always carries bytes and always consumed whole frames.
proof fn lemma_demux_data_nonempty(s: Seq<u8>)
    ensures
        demux_next(s) matches DemuxResult::Data { payload, consumed }
            ==> payload.len() > 0 && consumed >= 4,
    decreases s.len(),
{
    if s.len() > 0 {
        match parse_frame(s) {
            None => {}
            Some(f) => {
                if !(f.0 == MPLEX_BASE && f.1.len() > 0)
                    && !(MPLEX_BASE < f.0 <= MPLEX_BASE + 3) {
                    lemma_demux_data_nonempty(s.skip(f.2));
                }
            }
        }
    }
}

/// Wraps outgoing bytes in data frames.
#[derive(Debug)]
pub struct MultiplexWriter {
    pub inner: ByteBuffer,
}

impl MultiplexWriter {
    pub fn new(inner: ByteBuffer) -> (r: Self)
        ensures
            r.inner == inner,
    {
        Self { inner }
    }

    /// Frames and writes a buffer; large buffers leave as several frames.
    pub fn write(&mut self, buf: &[u8]) -> (r: Result<usize, RsyncError>)
        requires
            old(self).inner.pos + buf@.len() + (buf@.len() / 0xFFFFFF + 2) * 4 <= usize::MAX,
        ensures
            r matches Ok(n) && n == buf@.len(),
            final(self).inner.data@ == written(
                old(self).inner.data@, old(self).inner.pos as int, mux_chunks(buf@)),
            final(self).inner.pos == old(self).inner.pos + mux_chunks(buf@).len(),
    {
        write_frames(&mut self.inner, buf)?;
        Ok(buf.len())
    }

    /// Nothing is buffered; always succeeds.
    pub fn flush(&mut self) -> (r: Result<(), RsyncError>)
        ensures
            r is Ok,
            *final(self) == *old(self),
    {
        Ok(())
    }
}

/// Reassembles incoming data frames into a byte stream.
#[derive(Debug)]
pub struct MultiplexReader {
    pub inner: ByteBuffer,
    pub buffered: Vec<u8>,
}

impl MultiplexReader {
    pub fn new(inner: ByteBuffer) -> (r: Self)
        ensures
            r.inner == inner,
            r.buffered@ == Seq::<u8>::empty(),
    {
        Self { inner, buffered: Vec::new() }
    }

    /// Consumes one frame: a data frame lands in the reassembly buffer, an
    /// error, info or warning frame fails with its text, any other control
    /// frame is skipped.
    pub fn read_packet(&mut self) -> (r: Result<(), RsyncError>)
        ensures
            final(self).inner.data == old(self).inner.data,
            match parse_frame(remaining(old(self).inner)) {
                None => r is Err && final(self).buffered == old(self).buffered,
                Some(frame) => {
                    &&& final(self).inner.pos == old(self).inner.pos + frame.2
                    &&& (frame.0 == MPLEX_BASE ==> r is Ok
                        && final(self).buffered@ == old(self).buffered@ + frame.1)
                    &&& (MPLEX_BASE < frame.0 <= MPLEX_BASE + 3 ==> r is Err
                        && final(self).buffered == old(self).buffered)
                    &&& (!(MPLEX_BASE <= frame.0 <= MPLEX_BASE + 3) ==> r is Ok
                        && final(self).buffered == old(self).buffered)
                },
            },
    {
        let ghost rem = remaining(old(self).inner);
        let header_bytes = match self.inner.read_exact_bytes(4) {
            Ok(v) => v,
            Err(e) => {
                return Err(e);
            }
        };
        proof {
            crate::stream::lemma_le_val_bound(header_bytes@);
            crate::stream::lemma_pow256_values();
        }
        let header = crate::stream::le_value(header_bytes.as_slice());
        let tag = header / 0x100_0000;
        let length = (header % 0x100_0000) as usize;
        proof {
            assert(remaining(self.inner) =~= rem.skip(4));
        }
        let payload = match self.inner.read_exact_bytes(length) {
            Ok(v) => v,
            Err(e) => {
                return Err(e);
            }
        };
        proof {
            assert(payload@ =~= rem.subrange(4, 4 + length as int));
        }
        if tag == MPLEX_BASE as u64 {
            let mut body = payload;
            self.buffered.append(&mut body);
            return Ok(());
        }
        if tag > MPLEX_BASE as u64 && tag <= MPLEX_BASE as u64 + 3 {
            let text = crate::text::string_from_bytes_lossy(&payload);
            return Err(RsyncError::RemoteExec(text));
        }
        Ok(())
    }

    /// Hands out up to `max` reassembled bytes.  With bytes already
    /// buffered no frame is touched and the front of the buffer comes back;
    /// otherwise frames are pulled until the next non-empty data payload,
    /// whose front comes back with the rest buffered.  A clean end of
    /// stream between frames yields an empty read; a truncated frame or a
    /// message frame fails.
    pub fn read(&mut self, max: usize) -> (r: Result<Vec<u8>, RsyncError>)
        requires
            max >= 1,
        ensures
            final(self).inner.data == old(self).inner.data,
            old(self).buffered@.len() > 0 ==> (r matches Ok(v)
                && v@ == old(self).buffered@.take(
                    if old(self).buffered@.len() < max {
                        old(self).buffered@.len() as int
                    } else {
                        max as int
                    })
                && final(self).buffered@ == old(self).buffered@.skip(v@.len() as int)
                && final(self).inner == old(self).inner),
            old(self).buffered@.len() == 0 ==> match demux_next(remaining(
                old(self).inner)) {
                DemuxResult::End => r matches Ok(v) && v@ == Seq::<u8>::empty(),
                DemuxResult::Truncated => r is Err,
                DemuxResult::Message => r is Err,
                DemuxResult::Data { payload, consumed } => r matches Ok(v)
                    && v@ == payload.take(
                        if payload.len() < max {
                            payload.len() as int
                        } else {
                            max as int
                        })
                    && final(self).buffered@ == payload.skip(v@.len() as int)
                    && final(self).inner.pos == old(self).inner.pos + consumed,
            },
            r matches Ok(v) ==> v@.len() <= max,
    {
        let ghost rem0 = remaining(old(self).inner);
        let ghost pos0 = old(self).inner.pos as int;
        loop
            invariant
                max >= 1,
                rem0 == remaining(old(self).inner),
                pos0 == old(self).inner.pos as int,
                self.inner.data == old(self).inner.data,
                old(self).buffered@.len() > 0 ==> self == old(self),
                old(self).buffered@.len() == 0 ==> (
                    (self.buffered@.len() == 0 && pos0 <= self.inner.pos
                        && (match demux_next(remaining(self.inner)) {
                            DemuxResult::End => demux_next(rem0) is End,
                            DemuxResult::Truncated => demux_next(rem0) is Truncated,
                            DemuxResult::Message => demux_next(rem0) is Message,
                            DemuxResult::Data { payload, consumed } => demux_next(rem0)
                                matches DemuxResult::Data { payload: p0, consumed: c0 }
                                && p0 == payload
                                && c0 == (self.inner.pos - pos0) + consumed,
                        }))
                    || (demux_next(rem0) matches DemuxResult::Data { payload, consumed }
                        && self.buffered@ == payload
                        && self.inner.pos - pos0 == consumed)),
            decreases remaining(self.inner).len() + 1,
        {
            if self.buffered.len() > 0 {
                let take = if self.buffered.len() < max {
                    self.buffered.len()
                } else {
                    max
                };
                let ghost pre = self.buffered@;
                let front = copy_bytes(&self.buffered.as_slice()[0..take]);
                let rest = copy_bytes(&self.buffered.as_slice()[take..self.buffered.len()]);
                self.buffered = rest;
                proof {
                    assert(front@ =~= pre.take(take as int));
                    assert(self.buffered@ =~= pre.skip(take as int));
                }
                return Ok(front);
            }
            proof {
                if old(self).buffered@.len() > 0 {
                    assert(false);
                }
                lemma_demux_data_nonempty(rem0);
                assert(self.buffered@.len() == 0);
            }
            if self.inner.pos >= self.inner.data.len() {
                // a clean end of stream between frames
                let empty_out: Vec<u8> = Vec::new();
                proof {
                    assert(remaining(self.inner).len() == 0);
                    assert(demux_next(remaining(self.inner)) is End);
                    assert(empty_out@ =~= Seq::<u8>::empty());
                }
                return Ok(empty_out);
            }
            let ghost before_pos = self.inner.pos as int;
            let ghost rem = remaining(self.inner);
            proof {
                assert(rem.len() > 0);
            }
            match self.read_packet() {
                Ok(()) => {}
                Err(e) => {
                    proof {
                        match parse_frame(rem) {
                            None => {
                                assert(demux_next(rem) is Truncated);
                            }
                            Some(frame) => {
                                assert(MPLEX_BASE < frame.0 <= MPLEX_BASE + 3);
                                assert(demux_next(rem) is Message);
                            }
                        }
                    }
                    return Err(e);
                }
            }
            proof {
                let frame = parse_frame(rem).unwrap();
                assert(frame.2 >= 4);
                assert(remaining(self.inner) =~= rem.skip(frame.2));
                assert(remaining(self.inner).len() < rem.len());
                if frame.0 == MPLEX_BASE && frame.1.len() > 0 {
                    assert(demux_next(rem) == DemuxResult::Data {
                        payload: frame.1, consumed: frame.2 });
                    assert(self.buffered@ =~= frame.1);
                    assert((demux_next(rem0) matches DemuxResult::Data {
                        payload, consumed } && self.buffered@ == payload
                        && self.inner.pos - pos0 == consumed));
                } else {
                    assert(self.buffered@.len() == 0);
                    assert(demux_next(rem) == (match demux_next(rem.skip(frame.2)) {
                        DemuxResult::Data { payload, consumed } => DemuxResult::Data {
                            payload, consumed: frame.2 + consumed },
                        other => other,
                    }));
                    match demux_next(remaining(self.inner)) {
                        DemuxResult::End => {
                            assert(demux_next(rem0) is End);
                        }
                        DemuxResult::Truncated => {
                            assert(demux_next(rem0) is Truncated);
                        }
                        DemuxResult::Message => {
                            assert(demux_next(rem0) is Message);
                        }
                        DemuxResult::Data { payload, consumed } => {
                            assert(demux_next(rem) == DemuxResult::Data {
                                payload, consumed: frame.2 + consumed });
                            assert((demux_next(rem0) matches DemuxResult::Data {
                                payload: p0, consumed: c0 } && p0 == payload
                                && c0 == (self.inner.pos - pos0) + consumed));
                        }
                    }
                }
            }
        }
    }
}

/// Cuts a buffer into maximal frames and writes them.
fn write_frames(inner: &mut ByteBuffer, buf: &[u8]) -> (r: Result<(), RsyncError>)
    requires
        old(inner).pos + buf@.len() + (buf@.len() / 0xFFFFFF + 2) * 4 <= usize::MAX,
    ensures
        r is Ok,
        final(inner).data@ == written(old(inner).data@, old(inner).pos as int,
            mux_chunks(buf@)),
        final(inner).pos == old(inner).pos + mux_chunks(buf@).len(),
    decreases buf@.len(),
{
    if buf.len() == 0 {
        let empty_chunk: Vec<u8> = Vec::new();
        inner.write_bytes(empty_chunk.as_slice());
        proof {
            assert(mux_chunks(buf@) =~= Seq::<u8>::empty());
        }
        return Ok(());
    }
    let chunk = if buf.len() > MAX_MPLEX_DATA {
        MAX_MPLEX_DATA
    } else {
        buf.len()
    };
    let ghost d0 = inner.data@;
    let ghost p0 = inner.pos as int;
    let header_val: u64 = (MPLEX_BASE as u64) * 0x100_0000 + chunk as u64;
    proof {
        crate::stream::lemma_le_bytes_len(header_val as int, 4);
        crate::stream::lemma_pow256_values();
        vstd::arithmetic::div_mod::lemma_small_mod(header_val as nat, 0x1_0000_0000);
    }
    let header = crate::stream::to_le_bytes(header_val, 4);
    inner.write_bytes(header.as_slice());
    let body = &buf[0..chunk];
    inner.write_bytes(body);
    proof {
        crate::stream::lemma_written_append(d0, p0, frame_header(MPLEX_BASE as int,
            chunk as int), buf@.take(chunk as int));
    }
    let tail = &buf[chunk..buf.len()];
    proof {
        assert(tail@ =~= buf@.skip(chunk as int));
    }
    let ghost mid = frame_header(MPLEX_BASE as int, chunk as int) + buf@.take(chunk as int);
    if chunk == buf.len() {
        proof {
            assert(buf@.skip(chunk as int) =~= Seq::<u8>::empty());
            assert(mux_chunks(Seq::<u8>::empty()) =~= Seq::<u8>::empty());
            assert(mid =~= mux_chunks(buf@));
        }
        return Ok(());
    }
    proof {
        vstd::arithmetic::div_mod::lemma_div_minus_one(buf@.len() as int, 0xFFFFFF);
        assert(tail@.len() as int == buf@.len() - 0xFFFFFF);
    }
    write_frames(inner, tail)?;
    proof {
        crate::stream::lemma_written_append(d0, p0, mid, mux_chunks(buf@.skip(chunk as int)));
        assert(mid + mux_chunks(buf@.skip(chunk as int)) =~= mux_chunks(buf@));
    }
    Ok(())
}

/// A moved-in reader-writer pair over one transport buffer, with the
/// framing of `MultiplexReader` and `MultiplexWriter`.
#[derive(Debug)]
pub struct MultiplexIO {
    pub inner: ByteBuffer,
    pub read_buffer: Vec<u8>,
}

impl MultiplexIO {
    pub fn new(inner: ByteBuffer) -> (r: Self)
        ensures
            r.inner == inner,
            r.read_buffer@ == Seq::<u8>::empty(),
    {
        Self { inner, read_buffer: Vec::new() }
    }

    /// Releases the transport buffer.
    pub fn into_inner(self) -> (r: ByteBuffer)
        ensures
            r == self.inner,
    {
        self.inner
    }

    /// Frames and writes a buffer.
    pub fn write(&mut self, buf: &[u8]) -> (r: Result<usize, RsyncError>)
        requires
            old(self).inner.pos + buf@.len() + (buf@.len() / 0xFFFFFF + 2) * 4 <= usize::MAX,
        ensures
            r matches Ok(n) && n == buf@.len(),
            final(self).inner.data@ == written(
                old(self).inner.data@, old(self).inner.pos as int, mux_chunks(buf@)),
            final(self).inner.pos == old(self).inner.pos + mux_chunks(buf@).len(),
            final(self).read_buffer == old(self).read_buffer,
    {
        write_frames(&mut self.inner, buf)?;
        Ok(buf.len())
    }

    /// Nothing is buffered on the write side; always succeeds.
    pub fn flush(&mut self) -> (r: Result<(), RsyncError>)
        ensures
            r is Ok,
            *final(self) == *old(self),
    {
        Ok(())
    }
}

} // verus!
