//! The reconstructor: applies a delta instruction stream to an optional
//! reference file and produces the rebuilt contents.  Placement of the bytes
//! (atomic rename, in-place or partial file) is the caller's concern; this
//! code either produces the whole output or fails without producing any.

use vstd::prelude::*;
use crate::compress::Compressor;
use crate::delta::{clip_block, expand_delta, literal_payload, DeltaInstruction};
use crate::error::RsyncError;
use crate::options::{compression_of, CompressionAlgorithm, Options};
use crate::text::copy_bytes;

verus! {

/// The reference contents as a sequence, when a reference is given.
pub open spec fn base_view(base: Option<&Vec<u8>>) -> Option<Seq<u8>> {
    match base {
        Some(b) => Some(b@),
        None => None,
    }
}

/// Rebuilds file contents from delta instructions.
pub struct Receiver {
    temp_dir: Option<String>,
    block_size: usize,
    compressor: Option<Compressor>,
}

impl Receiver {
    /// The configured block size.
    pub closed spec fn spec_block_size(&self) -> usize {
        self.block_size
    }

    /// The configured compression, if any.
    pub closed spec fn copt(&self) -> Option<CompressionAlgorithm> {
        match self.compressor {
            Some(c) => Some(c.algorithm()),
            None => None,
        }
    }

    /// The directory configured for temporary output files, if any.
    pub closed spec fn spec_temp_dir(&self) -> Option<String> {
        self.temp_dir
    }

    /// The configured block size.
    #[verifier::when_used_as_spec(spec_block_size)]
    pub fn block_size(&self) -> (r: usize)
        ensures
            r == self.spec_block_size(),
    {
        self.block_size
    }

    /// The directory configured for temporary output files, if any.
    pub fn temp_dir(&self) -> (r: &Option<String>)
        ensures
            *r == self.spec_temp_dir(),
    {
        &self.temp_dir
    }

    pub fn new(block_size: usize, options: &Options) -> (r: Self)
        ensures
            r.block_size() == block_size,
            r.copt() == compression_of(*options),
            r.spec_temp_dir() is None,
    {
        let compressor = if options.compress {
            let alg = match options.compress_choice {
                Some(c) => c,
                None => CompressionAlgorithm::Zlib,
            };
            Some(Compressor::new(alg))
        } else {
            None
        };
        Self { temp_dir: None, block_size, compressor }
    }

    /// Directs temporary output files to the given directory.
    pub fn with_temp_dir(self, temp_dir: String) -> (r: Self)
        ensures
            r.block_size() == self.block_size(),
            r.copt() == self.copt(),
            r.spec_temp_dir() matches Some(d) && d@ == temp_dir@,
    {
        Self { temp_dir: Some(temp_dir), block_size: self.block_size,
            compressor: self.compressor }
    }

    /// Applies the instruction stream: matched blocks are copied out of the
    /// reference (clipped at its end), literal payloads are decompressed
    /// when a compressor is configured and written verbatim otherwise.
    /// Fails exactly where application is undefined: a matched block with
    /// no reference, or a literal payload that does not decompress.
    pub fn reconstruct(
        &self,
        base: Option<&Vec<u8>>,
        delta: &[DeltaInstruction],
    ) -> (r: Result<Vec<u8>, RsyncError>)
        requires
            self.block_size() >= 1,
        ensures
            r matches Ok(v) ==> expand_delta(
                base_view(base), self.block_size() as int, self.copt(), delta@) == Some(v@),
            r is Err ==> expand_delta(
                base_view(base), self.block_size() as int, self.copt(), delta@) is None,
    {
        let ghost bs = self.block_size as int;
        let ghost copt = self.copt();
        let ghost bv = base_view(base);
        let n = delta.len();
        let mut out: Vec<u8> = Vec::new();
        let mut i: usize = 0;
        proof {
            assert(delta@.skip(0) =~= delta@);
        }
        while i < n
            invariant
                n == delta@.len(),
                0 <= i <= n,
                bs == self.block_size() as int,
                1 <= bs,
                copt == self.copt(),
                bv == base_view(base),
                match expand_delta(bv, bs, copt, delta@.skip(i as int)) {
                    Some(rest) => expand_delta(bv, bs, copt, delta@) == Some(out@ + rest),
                    None => expand_delta(bv, bs, copt, delta@) is None,
                },
            decreases n - i,
        {
            proof {
                assert(delta@.skip(i as int)[0] == delta@[i as int]);
                assert(delta@.skip(i as int).drop_first() =~= delta@.skip(i + 1));
            }
            let ghost out_before = out@;
            match &delta[i] {
                DeltaInstruction::MatchedBlock { index } => {
                    match base {
                        Some(base_data) => {
                            let piece = read_block(base_data, self.block_size, *index);
                            proof {
                                lemma_expand_step_piece(bv, bs, copt, delta@, i as int,
                                    piece@, out_before);
                            }
                            append_bytes(&mut out, piece.as_slice());
                        }
                        None => {
                            return Err(RsyncError::Other(
                                "Matched block reference but no base file provided".to_owned()));
                        }
                    }
                }
                DeltaInstruction::LiteralData { data } => {
                    let piece = match &self.compressor {
                        Some(compressor) => match compressor.decompress(data.as_slice()) {
                            Ok(v) => v,
                            Err(e) => {
                                return Err(e);
                            }
                        },
                        None => copy_bytes(data.as_slice()),
                    };
                    proof {
                        assert(literal_payload(copt, delta@[i as int]->LiteralData_data@)
                            == Some(piece@));
                        lemma_expand_step_piece(bv, bs, copt, delta@, i as int, piece@,
                            out_before);
                    }
                    append_bytes(&mut out, piece.as_slice());
                }
            }
            i = i + 1;
        }
        proof {
            assert(delta@.skip(n as int) =~= Seq::<DeltaInstruction>::empty());
            assert(out@ + Seq::<u8>::empty() =~= out@);
        }
        Ok(out)
    }
}

/// One application step: when the piece an instruction stands for is
/// defined, appending it to the output keeps the expansion relation.
proof fn lemma_expand_step_piece(
    bv: Option<Seq<u8>>,
    bs: int,
    copt: Option<CompressionAlgorithm>,
    delta: Seq<DeltaInstruction>,
    i: int,
    piece: Seq<u8>,
    out: Seq<u8>,
)
    requires
        0 <= i < delta.len(),
        match expand_delta(bv, bs, copt, delta.skip(i)) {
            Some(rest) => expand_delta(bv, bs, copt, delta) == Some(out + rest),
            None => expand_delta(bv, bs, copt, delta) is None,
        },
        match delta[i] {
            DeltaInstruction::MatchedBlock { index } => bv matches Some(b)
                && piece == clip_block(b, bs, index as int),
            DeltaInstruction::LiteralData { data } => literal_payload(copt, data@)
                == Some(piece),
        },
    ensures
        match expand_delta(bv, bs, copt, delta.skip(i + 1)) {
            Some(rest) => expand_delta(bv, bs, copt, delta) == Some((out + piece) + rest),
            None => expand_delta(bv, bs, copt, delta) is None,
        },
{
    assert(delta.skip(i)[0] == delta[i]);
    assert(delta.skip(i).drop_first() =~= delta.skip(i + 1));
    match expand_delta(bv, bs, copt, delta.skip(i + 1)) {
        Some(rest) => {
            assert(expand_delta(bv, bs, copt, delta.skip(i)) == Some(piece + rest));
            assert(out + (piece + rest) =~= (out + piece) + rest);
        }
        None => {
            assert(expand_delta(bv, bs, copt, delta.skip(i)) is None);
        }
    }
}

/// Copies up to one block out of the reference: seeks to `index * bs` and
/// takes at most `bs` bytes, clipped at the end of the reference.
fn read_block(base: &Vec<u8>, bs: usize, index: u32) -> (r: Vec<u8>)
    requires
        bs >= 1,
    ensures
        r@ == clip_block(base@, bs as int, index as int),
{
    let len = base.len();
    let idx = index as usize;
    let lo = if idx > len / bs {
        len
    } else {
        proof {
            lemma_quotient_product(len as int, bs as int, idx as int);
        }
        let start = idx * bs;
        if start > len {
            len
        } else {
            start
        }
    };
    let hi = if len - lo > bs {
        lo + bs
    } else {
        len
    };
    proof {
        lemma_clip_range(base@, bs as int, index as int, lo as int, hi as int);
    }
    let slice = &base[lo..hi];
    copy_bytes(slice)
}

/// A position at most `len / bs` blocks in starts at or before `len`, and a
/// position beyond that starts past `len`.
proof fn lemma_quotient_product(len: int, bs: int, idx: int)
    requires
        len >= 0,
        bs >= 1,
        0 <= idx <= len / bs,
    ensures
        idx * bs <= len,
{
    assert(idx * bs <= (len / bs) * bs) by (nonlinear_arith)
        requires
            bs >= 1,
            0 <= idx <= len / bs,
    ;
    assert((len / bs) * bs <= len) by (nonlinear_arith)
        requires
            len >= 0,
            bs >= 1,
    ;
}

/// The executable clipping agrees with `clip_block`.
proof fn lemma_clip_range(base: Seq<u8>, bs: int, i: int, lo: int, hi: int)
    requires
        bs >= 1,
        i >= 0,
        lo == if i > base.len() as int / bs {
            base.len() as int
        } else {
            if i * bs > base.len() {
                base.len() as int
            } else {
                i * bs
            }
        },
        hi == if base.len() - lo > bs {
            lo + bs
        } else {
            base.len() as int
        },
    ensures
        0 <= lo <= hi <= base.len(),
        clip_block(base, bs, i) == base.subrange(lo, hi),
{
    let len = base.len() as int;
    if i > len / bs {
        assert(i >= len / bs + 1);
        assert((len / bs + 1) * bs == (len / bs) * bs + bs) by (nonlinear_arith);
        assert(i * bs >= (len / bs + 1) * bs) by (nonlinear_arith)
            requires
                bs >= 1,
                i >= len / bs + 1,
        ;
        assert((len / bs) * bs + bs > len) by (nonlinear_arith)
            requires
                len >= 0,
                bs >= 1,
        ;
        assert(i * bs > len);
    } else {
        lemma_quotient_product(len, bs, i);
    }
    assert(clip_block(base, bs, i) =~= base.subrange(lo, hi));
}

/// Appends a byte slice to the output buffer.
fn append_bytes(dst: &mut Vec<u8>, data: &[u8])
    ensures
        final(dst)@ == old(dst)@ + data@,
{
    let n = data.len();
    let mut i: usize = 0;
    while i < n
        invariant
            n == data@.len(),
            0 <= i <= n,
            dst@ == old(dst)@ + data@.subrange(0, i as int),
        decreases n - i,
    {
        dst.push(data[i]);
        proof {
            assert(old(dst)@ + data@.subrange(0, i + 1)
                =~= (old(dst)@ + data@.subrange(0, i as int)).push(data@[i as int]));
        }
        i = i + 1;
    }
    proof {
        assert(data@.subrange(0, n as int) =~= data@);
    }
}

} // verus!

verus! {

/// Atomic placement at the byte level: what the destination holds after a
/// reconstruction attempt.  A successful rebuild replaces the contents; a
/// failed one leaves every previous byte exactly as it was.  The caller
/// realises this by writing to a sibling temporary file and renaming it
/// over the destination only on success.
pub fn place_atomic(dest: &Vec<u8>, outcome: &Result<Vec<u8>, RsyncError>) -> (r: Vec<u8>)
    ensures
        outcome matches Ok(v) ==> r@ == v@,
        outcome is Err ==> r@ == dest@,
{
    match outcome {
        Ok(v) => copy_bytes(v.as_slice()),
        Err(_) => copy_bytes(dest.as_slice()),
    }
}

} // verus!
