//! Delta instructions: the unit of transfer between sender and receiver.
//! An instruction either references a block of the reference file or carries
//! novel literal bytes.

use vstd::prelude::*;
use crate::checksum::strong_bytes_of;
use crate::compress::decompressed_with;
use crate::generator::{block_at, num_blocks, BlockChecksum};
use crate::options::{ChecksumAlgorithm, CompressionAlgorithm};
use crate::text::bytes_eq;

verus! {

/// One step of a delta stream.
#[derive(Debug, Clone)]
pub enum DeltaInstruction {
    /// The receiver copies block `index` of the reference file.
    MatchedBlock { index: u32 },
    /// The receiver writes these bytes (possibly compressed) verbatim.
    LiteralData { data: Vec<u8> },
}

/// The wire cost of one instruction: a 4-byte tag or length plus any
/// literal payload.
pub open spec fn instr_size(instr: DeltaInstruction) -> int {
    match instr {
        DeltaInstruction::MatchedBlock { .. } => 4int,
        DeltaInstruction::LiteralData { data } => 4 + data@.len() as int,
    }
}

/// The number of matched-block instructions in a stream.
pub open spec fn matched_count(s: Seq<DeltaInstruction>) -> int
    decreases s.len(),
{
    if s.len() == 0 {
        0
    } else {
        matched_count(s.drop_last()) + if s.last() is MatchedBlock {
            1int
        } else {
            0int
        }
    }
}

/// The number of literal payload bytes in a stream.
pub open spec fn literal_byte_count(s: Seq<DeltaInstruction>) -> int
    decreases s.len(),
{
    if s.len() == 0 {
        0
    } else {
        literal_byte_count(s.drop_last()) + match s.last() {
            DeltaInstruction::LiteralData { data } => data@.len() as int,
            DeltaInstruction::MatchedBlock { .. } => 0,
        }
    }
}

/// The total wire cost of a stream.
pub open spec fn total_size(s: Seq<DeltaInstruction>) -> int
    decreases s.len(),
{
    if s.len() == 0 {
        0
    } else {
        total_size(s.drop_last()) + instr_size(s.last())
    }
}

impl DeltaInstruction {
    /// A back-reference to reference block `index`.
    pub fn matched_block(index: u32) -> (r: Self)
        ensures
            r == (DeltaInstruction::MatchedBlock { index }),
    {
        DeltaInstruction::MatchedBlock { index }
    }

    /// A literal-data instruction carrying `data`.
    pub fn literal_data(data: Vec<u8>) -> (r: Self)
        ensures
            r matches DeltaInstruction::LiteralData { data: d } && d@ == data@,
    {
        DeltaInstruction::LiteralData { data }
    }

    /// The wire cost of this instruction.
    pub fn size(&self) -> (r: usize)
        requires
            instr_size(*self) <= usize::MAX,
        ensures
            r == instr_size(*self),
    {
        match self {
            DeltaInstruction::MatchedBlock { .. } => 4,
            DeltaInstruction::LiteralData { data } => 4 + data.len(),
        }
    }

    /// Whether this is a block back-reference.
    pub fn is_matched_block(&self) -> (r: bool)
        ensures
            r == (self is MatchedBlock),
    {
        matches!(self, DeltaInstruction::MatchedBlock { .. })
    }

    /// Whether this carries literal bytes.
    pub fn is_literal_data(&self) -> (r: bool)
        ensures
            r == (self is LiteralData),
    {
        matches!(self, DeltaInstruction::LiteralData { .. })
    }

    /// Deep equality of two instructions.
    pub fn equals(&self, other: &DeltaInstruction) -> (r: bool)
        ensures
            r == crate::delta::instr_eq(*self, *other),
    {
        match (self, other) {
            (
                DeltaInstruction::MatchedBlock { index: a },
                DeltaInstruction::MatchedBlock { index: b },
            ) => *a == *b,
            (
                DeltaInstruction::LiteralData { data: a },
                DeltaInstruction::LiteralData { data: b },
            ) => bytes_eq(a.as_slice(), b.as_slice()),
            _ => false,
        }
    }
}

/// Structural equality of two instructions, comparing payloads by view.
pub open spec fn instr_eq(a: DeltaInstruction, b: DeltaInstruction) -> bool {
    match (a, b) {
        (
            DeltaInstruction::MatchedBlock { index: x },
            DeltaInstruction::MatchedBlock { index: y },
        ) => x == y,
        (DeltaInstruction::LiteralData { data: x }, DeltaInstruction::LiteralData { data: y }) =>
            x@ == y@,
        _ => false,
    }
}

impl PartialEq for DeltaInstruction {
    fn eq(&self, other: &DeltaInstruction) -> (r: bool) {
        self.equals(other)
    }
}

impl Eq for DeltaInstruction {

}

impl vstd::std_specs::cmp::PartialEqSpecImpl for DeltaInstruction {
    open spec fn obeys_eq_spec() -> bool {
        true
    }

    open spec fn eq_spec(&self, other: &DeltaInstruction) -> bool {
        instr_eq(*self, *other)
    }
}

/// Transfer accounting over a finished instruction stream.
#[derive(Debug, Clone)]
pub struct DeltaStats {
    /// How many instructions reference a block of the reference file.
    pub matched_blocks: usize,
    /// How many literal payload bytes the stream carries.
    pub literal_bytes: usize,
    /// The total wire cost of the stream.
    pub total_transfer_size: usize,
}

impl DeltaStats {
    /// Tallies an instruction stream.
    pub fn from_instructions(instructions: &[DeltaInstruction]) -> (r: Self)
        requires
            total_size(instructions@) <= usize::MAX,
            instructions@.len() <= usize::MAX,
        ensures
            r.matched_blocks == matched_count(instructions@),
            r.literal_bytes == literal_byte_count(instructions@),
            r.total_transfer_size == total_size(instructions@),
    {
        let mut matched_blocks: usize = 0;
        let mut literal_bytes: usize = 0;
        let mut total_transfer_size: usize = 0;

        let n = instructions.len();
        let mut i: usize = 0;
        proof {
            assert(instructions@.subrange(0, 0) =~= Seq::<DeltaInstruction>::empty());
        }
        while i < n
            invariant
                n == instructions@.len(),
                0 <= i <= n,
                matched_blocks == matched_count(instructions@.subrange(0, i as int)),
                literal_bytes == literal_byte_count(instructions@.subrange(0, i as int)),
                total_transfer_size == total_size(instructions@.subrange(0, i as int)),
                total_size(instructions@) <= usize::MAX,
            decreases n - i,
        {
            let ghost prefix = instructions@.subrange(0, i as int);
            proof {
                assert(instructions@.subrange(0, i + 1).drop_last() =~= prefix);
                assert(instructions@.subrange(0, i + 1).last() == instructions@[i as int]);
                lemma_prefix_totals(instructions@, i + 1);
            }
            let instruction = &instructions[i];
            match instruction {
                DeltaInstruction::MatchedBlock { .. } => {
                    matched_blocks = matched_blocks + 1;
                    total_transfer_size = total_transfer_size + 4;
                }
                DeltaInstruction::LiteralData { data } => {
                    literal_bytes = literal_bytes + data.len();
                    total_transfer_size = total_transfer_size + 4 + data.len();
                }
            }
            i = i + 1;
        }
        proof {
            assert(instructions@.subrange(0, n as int) =~= instructions@);
        }
        Self { matched_blocks, literal_bytes, total_transfer_size }
    }
}

/// The tallies over a prefix never exceed those over the whole stream, and
/// each component stays below the total size.
proof fn lemma_prefix_totals(s: Seq<DeltaInstruction>, k: int)
    requires
        0 <= k <= s.len(),
    ensures
        total_size(s.subrange(0, k)) <= total_size(s),
        matched_count(s.subrange(0, k)) <= total_size(s.subrange(0, k)),
        literal_byte_count(s.subrange(0, k)) <= total_size(s.subrange(0, k)),
        0 <= matched_count(s.subrange(0, k)),
        0 <= literal_byte_count(s.subrange(0, k)),
        0 <= total_size(s.subrange(0, k)),
    decreases s.len(), s.len() - k,
{
    if k == s.len() {
        assert(s.subrange(0, k) =~= s);
        lemma_totals_nonneg(s);
    } else {
        lemma_prefix_totals(s, k + 1);
        let p1 = s.subrange(0, k + 1);
        assert(p1.drop_last() =~= s.subrange(0, k));
        assert(instr_size(p1.last()) >= 4);
        lemma_totals_nonneg(s.subrange(0, k));
    }
}

/// All three tallies are non-negative and the per-item totals dominate the
/// component counts.
proof fn lemma_totals_nonneg(s: Seq<DeltaInstruction>)
    ensures
        0 <= matched_count(s),
        0 <= literal_byte_count(s),
        0 <= total_size(s),
        matched_count(s) <= total_size(s),
        literal_byte_count(s) <= total_size(s),
    decreases s.len(),
{
    if s.len() > 0 {
        lemma_totals_nonneg(s.drop_last());
    }
}

} // verus!

verus! {

/// The bytes a literal instruction stands for: its payload as carried, or
/// what that payload decompresses to when a compressor is configured.
pub open spec fn literal_payload(
    copt: Option<CompressionAlgorithm>,
    data: Seq<u8>,
) -> Option<Seq<u8>> {
    match copt {
        None => Some(data),
        Some(alg) => decompressed_with(alg, data),
    }
}

/// The window the scanner hashes at position `p`: a full block, or the tail
/// when fewer than `bs` bytes remain.
pub open spec fn window_len(src: Seq<u8>, bs: int, p: int) -> int {
    if src.len() - p < bs {
        src.len() - p
    } else {
        bs
    }
}

/// The instruction stream `delta` consumes exactly `src[from..to]`: each
/// matched block was confirmed against a signature by strong digest over the
/// window it replaces, and each literal stands for the very bytes it covers.
pub open spec fn delta_covers(
    src: Seq<u8>,
    sigs: Seq<BlockChecksum>,
    bs: int,
    alg: ChecksumAlgorithm,
    copt: Option<CompressionAlgorithm>,
    delta: Seq<DeltaInstruction>,
    from: int,
    to: int,
) -> bool
    decreases delta.len(),
{
    if delta.len() == 0 {
        from == to
    } else {
        match delta[0] {
            DeltaInstruction::MatchedBlock { index } => {
                let l = window_len(src, bs, from);
                &&& 0 <= from < src.len()
                &&& 0 <= index < sigs.len()
                &&& sigs[index as int].strong.is_digest_of(alg, src.subrange(from, from + l))
                &&& delta_covers(src, sigs, bs, alg, copt, delta.drop_first(), from + l, to)
            }
            DeltaInstruction::LiteralData { data } => {
                &&& literal_payload(copt, data@) is Some
                &&& {
                    let s = literal_payload(copt, data@).unwrap();
                    &&& s.len() > 0
                    &&& 0 <= from
                    &&& from + s.len() <= src.len()
                    &&& s == src.subrange(from, from + s.len() as int)
                    &&& delta_covers(src, sigs, bs, alg, copt, delta.drop_first(),
                        from + s.len() as int, to)
                }
            }
        }
    }
}

/// The block the receiver copies for a matched instruction: it seeks to
/// `i * bs` and reads up to `bs` bytes, so an index past the end yields
/// nothing.
pub open spec fn clip_block(base: Seq<u8>, bs: int, i: int) -> Seq<u8> {
    let lo = if i * bs < base.len() {
        i * bs
    } else {
        base.len() as int
    };
    let hi = if i * bs + bs < base.len() {
        i * bs + bs
    } else {
        base.len() as int
    };
    if lo <= hi {
        base.subrange(lo, hi)
    } else {
        Seq::empty()
    }
}

/// The bytes the receiver writes for an instruction stream, or `None` where
/// application must fail: a matched block without a reference, or a literal
/// payload that does not decompress.
pub open spec fn expand_delta(
    base: Option<Seq<u8>>,
    bs: int,
    copt: Option<CompressionAlgorithm>,
    delta: Seq<DeltaInstruction>,
) -> Option<Seq<u8>>
    decreases delta.len(),
{
    if delta.len() == 0 {
        Some(Seq::empty())
    } else {
        match delta[0] {
            DeltaInstruction::MatchedBlock { index } => match base {
                None => None,
                Some(b) => match expand_delta(base, bs, copt, delta.drop_first()) {
                    None => None,
                    Some(rest) => Some(clip_block(b, bs, index as int) + rest),
                },
            },
            DeltaInstruction::LiteralData { data } => match literal_payload(copt, data@) {
                None => None,
                Some(s) => match expand_delta(base, bs, copt, delta.drop_first()) {
                    None => None,
                    Some(rest) => Some(s + rest),
                },
            },
        }
    }
}

/// No strong-digest collision relates a scanner window of `src` to a block
/// of `base` with different contents.
pub open spec fn hash_collision_free(
    base: Seq<u8>,
    src: Seq<u8>,
    bs: int,
    alg: ChecksumAlgorithm,
) -> bool {
    forall|i: int, p: int|
        0 <= i < num_blocks(base.len() as int, bs) && 0 <= p < src.len()
            && strong_bytes_of(alg, #[trigger] src.subrange(p, p + window_len(src, bs, p)))
                == strong_bytes_of(alg, #[trigger] block_at(base, bs, i))
        ==> src.subrange(p, p + window_len(src, bs, p)) == block_at(base, bs, i)
}

/// Two consecutive coverage runs concatenate.
pub proof fn lemma_covers_append(
    src: Seq<u8>,
    sigs: Seq<BlockChecksum>,
    bs: int,
    alg: ChecksumAlgorithm,
    copt: Option<CompressionAlgorithm>,
    d1: Seq<DeltaInstruction>,
    d2: Seq<DeltaInstruction>,
    from: int,
    mid: int,
    to: int,
)
    requires
        delta_covers(src, sigs, bs, alg, copt, d1, from, mid),
        delta_covers(src, sigs, bs, alg, copt, d2, mid, to),
    ensures
        delta_covers(src, sigs, bs, alg, copt, d1 + d2, from, to),
    decreases d1.len(),
{
    if d1.len() == 0 {
        assert(d1 + d2 =~= d2);
    } else {
        assert((d1 + d2)[0] == d1[0]);
        assert((d1 + d2).drop_first() =~= d1.drop_first() + d2);
        match d1[0] {
            DeltaInstruction::MatchedBlock { index } => {
                let l = window_len(src, bs, from);
                lemma_covers_append(src, sigs, bs, alg, copt, d1.drop_first(), d2, from + l, mid,
                    to);
            }
            DeltaInstruction::LiteralData { data } => {
                let s = literal_payload(copt, data@).unwrap();
                lemma_covers_append(src, sigs, bs, alg, copt, d1.drop_first(), d2,
                    from + s.len() as int, mid, to);
            }
        }
    }
}

/// A block index below the block count starts inside the data, and the
/// receiver's clipped read returns exactly that block.
pub proof fn lemma_block_in_range(base: Seq<u8>, bs: int, i: int)
    requires
        bs >= 1,
        0 <= i < num_blocks(base.len() as int, bs),
    ensures
        i * bs < base.len(),
        clip_block(base, bs, i) == block_at(base, bs, i),
    decreases i,
{
    if i == 0 {
        assert(num_blocks(base.len() as int, bs) > 0);
        assert(base.len() > 0);
    } else {
        lemma_block_in_range_step(base.len() as int, bs, i);
    }
    assert(clip_block(base, bs, i) =~= block_at(base, bs, i));
}

proof fn lemma_block_in_range_step(len: int, bs: int, i: int)
    requires
        bs >= 1,
        1 <= i < num_blocks(len, bs),
    ensures
        i * bs < len,
    decreases i,
{
    assert((i - 1) * bs == i * bs - bs) by (nonlinear_arith);
    assert(num_blocks(len, bs) == 1 + num_blocks(len - bs, bs));
    if i == 1 {
        assert(num_blocks(len - bs, bs) >= 1);
        assert(len - bs > 0);
        assert(i * bs == bs) by (nonlinear_arith)
            requires i == 1;
    } else {
        lemma_block_in_range_step(len - bs, bs, i - 1);
    }
}

/// Round-trip identity: an instruction stream that covers `src[from..]`
/// against the signatures of `base`, applied back to `base`, reproduces
/// `src[from..]` exactly — provided the strong digest is collision-free over
/// the windows and blocks involved.
pub proof fn lemma_delta_round_trip(
    base: Seq<u8>,
    src: Seq<u8>,
    sigs: Seq<BlockChecksum>,
    bs: int,
    alg: ChecksumAlgorithm,
    copt: Option<CompressionAlgorithm>,
    delta: Seq<DeltaInstruction>,
    from: int,
)
    requires
        bs >= 1,
        crate::generator::sigs_of(sigs, base, bs, alg),
        hash_collision_free(base, src, bs, alg),
        0 <= from <= src.len(),
        delta_covers(src, sigs, bs, alg, copt, delta, from, src.len() as int),
    ensures
        expand_delta(Some(base), bs, copt, delta) == Some(src.subrange(from, src.len() as int)),
    decreases delta.len(),
{
    if delta.len() == 0 {
        assert(src.subrange(from, src.len() as int) =~= Seq::<u8>::empty());
    } else {
        match delta[0] {
            DeltaInstruction::MatchedBlock { index } => {
                let i = index as int;
                let l = window_len(src, bs, from);
                let w = src.subrange(from, from + l);
                lemma_delta_round_trip(base, src, sigs, bs, alg, copt, delta.drop_first(),
                    from + l);
                // the signature describes both the window and block `i`
                assert(sigs[i].strong.is_digest_of(alg, w));
                assert(sigs[i].strong.is_digest_of(alg, block_at(base, bs, i)));
                assert(strong_bytes_of(alg, w) == strong_bytes_of(alg, block_at(base, bs, i)));
                assert(w == block_at(base, bs, i));
                lemma_block_in_range(base, bs, i);
                assert(src.subrange(from, src.len() as int)
                    =~= w + src.subrange(from + l, src.len() as int));
            }
            DeltaInstruction::LiteralData { data } => {
                let s = literal_payload(copt, data@).unwrap();
                lemma_delta_round_trip(base, src, sigs, bs, alg, copt, delta.drop_first(),
                    from + s.len() as int);
                assert(src.subrange(from, src.len() as int)
                    =~= s + src.subrange(from + s.len() as int, src.len() as int));
            }
        }
    }
}

} // verus!

verus! {

/// A covered stream always applies cleanly when a reference is present: the
/// coverage relation already pins every literal payload down as decodable.
pub proof fn lemma_covered_expansion_defined(
    base: Seq<u8>,
    src: Seq<u8>,
    sigs: Seq<BlockChecksum>,
    bs: int,
    alg: ChecksumAlgorithm,
    copt: Option<CompressionAlgorithm>,
    delta: Seq<DeltaInstruction>,
    from: int,
    to: int,
)
    requires
        delta_covers(src, sigs, bs, alg, copt, delta, from, to),
    ensures
        expand_delta(Some(base), bs, copt, delta) is Some,
    decreases delta.len(),
{
    if delta.len() > 0 {
        match delta[0] {
            DeltaInstruction::MatchedBlock { index } => {
                let l = window_len(src, bs, from);
                lemma_covered_expansion_defined(base, src, sigs, bs, alg, copt,
                    delta.drop_first(), from + l, to);
            }
            DeltaInstruction::LiteralData { data } => {
                let s = literal_payload(copt, data@).unwrap();
                lemma_covered_expansion_defined(base, src, sigs, bs, alg, copt,
                    delta.drop_first(), from + s.len() as int, to);
            }
        }
    }
}

} // verus!
