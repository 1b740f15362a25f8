//! The delta computer: scans a source file against the block signatures of a
//! reference file and emits a stream of matched-block and literal
//! instructions whose application to the reference reproduces the source.

use vstd::prelude::*;
use std::collections::HashMap;
use crate::checksum::{
    compute_strong_checksum, lemma_roll_window, weak_of, RollingChecksum, StrongChecksum,
};
use crate::compress::Compressor;
use crate::delta::{delta_covers, lemma_covers_append, literal_payload, DeltaInstruction};
use crate::error::RsyncError;
use crate::generator::BlockChecksum;
use crate::options::{
    chosen_checksum, compression_of, ChecksumAlgorithm, CompressionAlgorithm, Options,
};
use crate::text::copy_bytes;

verus! {

/// `m` is the signature table of `sigs`: every key maps to the non-empty
/// list of signature positions bearing that weak value, every position is
/// filed under its weak value, and nothing else is in the table.
pub open spec fn table_of(m: Map<u32, Vec<usize>>, sigs: Seq<BlockChecksum>) -> bool {
    &&& forall|w: u32| #[trigger] m.contains_key(w) ==> m[w]@.len() > 0
    &&& forall|w: u32, k: int|
        #![trigger m[w]@[k]]
        m.contains_key(w) && 0 <= k < m[w]@.len()
            ==> m[w]@[k] < sigs.len() && sigs[m[w]@[k] as int].weak == w
    &&& forall|w: u32, k1: int, k2: int|
        #![trigger m[w]@[k1], m[w]@[k2]]
        m.contains_key(w) && 0 <= k1 < k2 < m[w]@.len() ==> m[w]@[k1] < m[w]@[k2]
    &&& forall|i: int| 0 <= i < sigs.len() ==> m.contains_key((#[trigger] sigs[i]).weak)
    &&& forall|i: int|
        0 <= i < sigs.len() ==> exists|k: int|
            0 <= k < m[(#[trigger] sigs[i]).weak]@.len() && m[sigs[i].weak]@[k] == i
}

/// A delta instruction at the specification level: block indices and
/// uncompressed literal bytes.
#[verifier::ext_equal]
pub enum ModelInstruction {
    MatchedBlock { index: int },
    LiteralData { data: Seq<u8> },
}

/// Whether signature `i` matches window `w`: equal weak checksum and equal
/// strong digest.
pub open spec fn sig_matches(
    sigs: Seq<BlockChecksum>,
    alg: ChecksumAlgorithm,
    w: Seq<u8>,
    i: int,
) -> bool {
    &&& 0 <= i < sigs.len()
    &&& sigs[i].weak == weak_of(w)
    &&& sigs[i].strong.is_digest_of(alg, w)
}

/// The lowest signature index matching the window, from position `i` on.
pub open spec fn first_match_from(
    sigs: Seq<BlockChecksum>,
    alg: ChecksumAlgorithm,
    w: Seq<u8>,
    i: int,
) -> Option<int>
    decreases sigs.len() - i,
{
    if i < 0 || i >= sigs.len() {
        None
    } else if sig_matches(sigs, alg, w, i) {
        Some(i)
    } else {
        first_match_from(sigs, alg, w, i + 1)
    }
}

/// The lowest signature index matching the window — the tie-break of the
/// delta scan.
pub open spec fn first_match(
    sigs: Seq<BlockChecksum>,
    alg: ChecksumAlgorithm,
    w: Seq<u8>,
) -> Option<int> {
    first_match_from(sigs, alg, w, 0)
}

/// The pending literal bytes as an instruction, or nothing when empty.
pub open spec fn flush_model(lit: Seq<u8>) -> Seq<ModelInstruction> {
    if lit.len() > 0 {
        seq![ModelInstruction::LiteralData { data: lit }]
    } else {
        Seq::empty()
    }
}

/// The single-pass scan of §the delta computer, as a function: from `pos`
/// with `lit` bytes pending, try the full window at every position, the
/// lowest matching index winning; fall back to the tail window, and flush
/// whatever literal bytes remain.
pub open spec fn spec_delta_scan(
    src: Seq<u8>,
    sigs: Seq<BlockChecksum>,
    bs: int,
    alg: ChecksumAlgorithm,
    pos: int,
    lit: Seq<u8>,
) -> Seq<ModelInstruction>
    decreases src.len() - pos,
{
    if bs < 1 || pos < 0 {
        Seq::empty()
    } else if pos + bs <= src.len() {
        let w = src.subrange(pos, pos + bs);
        match first_match(sigs, alg, w) {
            Some(i) => flush_model(lit) + seq![ModelInstruction::MatchedBlock { index: i }]
                + spec_delta_scan(src, sigs, bs, alg, pos + bs, Seq::empty()),
            None => spec_delta_scan(src, sigs, bs, alg, pos + 1, lit.push(src[pos])),
        }
    } else if pos < src.len() {
        let w = src.subrange(pos, src.len() as int);
        match first_match(sigs, alg, w) {
            Some(i) => flush_model(lit) + seq![ModelInstruction::MatchedBlock { index: i }],
            None => seq![ModelInstruction::LiteralData { data: lit + w }],
        }
    } else {
        flush_model(lit)
    }
}

/// The delta the scan produces for a whole source.
pub open spec fn spec_delta(
    src: Seq<u8>,
    sigs: Seq<BlockChecksum>,
    bs: int,
    alg: ChecksumAlgorithm,
) -> Seq<ModelInstruction> {
    spec_delta_scan(src, sigs, bs, alg, 0, Seq::empty())
}

/// The bytes a literal instruction carries on the wire: the raw bytes, or
/// their compressed form when a compressor is configured.
pub open spec fn literal_wire(copt: Option<CompressionAlgorithm>, bytes: Seq<u8>) -> Seq<u8> {
    match copt {
        None => bytes,
        Some(alg) => crate::compress::compressed_with(alg, bytes),
    }
}

/// One emitted instruction realises one scan step.
pub open spec fn instr_realises(
    di: DeltaInstruction,
    m: ModelInstruction,
    copt: Option<CompressionAlgorithm>,
) -> bool {
    match (di, m) {
        (DeltaInstruction::MatchedBlock { index }, ModelInstruction::MatchedBlock {
            index: i }) => index == i,
        (DeltaInstruction::LiteralData { data }, ModelInstruction::LiteralData {
            data: bytes }) => data@ == literal_wire(copt, bytes),
        _ => false,
    }
}

/// The emitted stream realises the scan step for step.
pub open spec fn delta_realises(
    d: Seq<DeltaInstruction>,
    ms: Seq<ModelInstruction>,
    copt: Option<CompressionAlgorithm>,
) -> bool {
    d.len() == ms.len() && forall|k: int|
        0 <= k < d.len() ==> instr_realises(#[trigger] d[k], ms[k], copt)
}

/// A witnessed lowest match is the first match.
proof fn lemma_first_match_at(
    sigs: Seq<BlockChecksum>,
    alg: ChecksumAlgorithm,
    w: Seq<u8>,
    i: int,
)
    requires
        sig_matches(sigs, alg, w, i),
        forall|j: int| 0 <= j < i ==> !sig_matches(sigs, alg, w, j),
    ensures
        first_match(sigs, alg, w) == Some(i),
{
    lemma_first_match_at_from(sigs, alg, w, i, 0);
}

proof fn lemma_first_match_at_from(
    sigs: Seq<BlockChecksum>,
    alg: ChecksumAlgorithm,
    w: Seq<u8>,
    i: int,
    from: int,
)
    requires
        sig_matches(sigs, alg, w, i),
        forall|j: int| 0 <= j < i ==> !sig_matches(sigs, alg, w, j),
        0 <= from <= i,
    ensures
        first_match_from(sigs, alg, w, from) == Some(i),
    decreases i - from,
{
    if from < i {
        lemma_first_match_at_from(sigs, alg, w, i, from + 1);
    }
}

/// With no matching signature there is no first match.
proof fn lemma_first_match_none(sigs: Seq<BlockChecksum>, alg: ChecksumAlgorithm, w: Seq<u8>)
    requires
        forall|j: int| 0 <= j < sigs.len() ==> !sig_matches(sigs, alg, w, j),
    ensures
        first_match(sigs, alg, w) is None,
{
    lemma_first_match_none_from(sigs, alg, w, 0);
}

proof fn lemma_first_match_none_from(
    sigs: Seq<BlockChecksum>,
    alg: ChecksumAlgorithm,
    w: Seq<u8>,
    from: int,
)
    requires
        forall|j: int| 0 <= j < sigs.len() ==> !sig_matches(sigs, alg, w, j),
        0 <= from,
    ensures
        first_match_from(sigs, alg, w, from) is None,
    decreases sigs.len() - from,
{
    if from < sigs.len() {
        lemma_first_match_none_from(sigs, alg, w, from + 1);
    }
}

/// Realisation extends one instruction at a time.
proof fn lemma_realises_snoc(
    d: Seq<DeltaInstruction>,
    ms: Seq<ModelInstruction>,
    di: DeltaInstruction,
    m: ModelInstruction,
    copt: Option<CompressionAlgorithm>,
)
    requires
        delta_realises(d, ms, copt),
        instr_realises(di, m, copt),
    ensures
        delta_realises(d.push(di), ms.push(m), copt),
{
    assert forall|k: int| 0 <= k < d.push(di).len() implies instr_realises(
        #[trigger] d.push(di)[k], ms.push(m)[k], copt) by {
        if k < d.len() {
            assert(d.push(di)[k] == d[k]);
            assert(ms.push(m)[k] == ms[k]);
            assert(instr_realises(d[k], ms[k], copt));
        } else {
            assert(d.push(di)[k] == di);
            assert(ms.push(m)[k] == m);
        }
    }
}

/// A first bucket hit is the lowest matching signature index: buckets hold
/// exactly the indices of their weak value in ascending order, so scanning
/// one in order and stopping at the first strong match lands on the least
/// index that matches in both checksums.
proof fn lemma_lookup_hit(
    m: Map<u32, Vec<usize>>,
    sigs: Seq<BlockChecksum>,
    alg: ChecksumAlgorithm,
    w: Seq<u8>,
    wk: u32,
    strong: StrongChecksum,
    bucket: Seq<usize>,
    i: int,
)
    requires
        table_of(m, sigs),
        wk == weak_of(w),
        m.contains_key(wk),
        m[wk]@ == bucket,
        strong.is_digest_of(alg, w),
        exists|k: int|
            0 <= k < bucket.len() && bucket[k] == i
                && #[trigger] bucket_hit(sigs, bucket, strong, k)
                && forall|j: int| 0 <= j < k ==> !bucket_hit(sigs, bucket, strong, j),
    ensures
        first_match(sigs, alg, w) == Some(i),
{
    let k = choose|k: int|
        0 <= k < bucket.len() && bucket[k] == i
            && #[trigger] bucket_hit(sigs, bucket, strong, k)
            && forall|j: int| 0 <= j < k ==> !bucket_hit(sigs, bucket, strong, j);
    assert(m[wk]@[k] == i);
    assert(i < sigs.len() && sigs[i].weak == wk);
    assert(sigs[i].strong.is_digest_of(alg, w));
    assert(sig_matches(sigs, alg, w, i));
    assert forall|j: int| 0 <= j < i implies !sig_matches(sigs, alg, w, j) by {
        if sig_matches(sigs, alg, w, j) {
            assert(sigs[j].weak == wk);
            assert(exists|k2: int|
                0 <= k2 < m[sigs[j].weak]@.len() && m[sigs[j].weak]@[k2] == j);
            let k2 = choose|k2: int| 0 <= k2 < bucket.len() && bucket[k2] == j;
            assert(m[wk]@[k2] == j);
            if k2 == k {
                assert(j == i);
            } else if k2 > k {
                assert(m[wk]@[k] < m[wk]@[k2]);
            }
            assert(k2 < k);
            assert(!bucket_hit(sigs, bucket, strong, k2));
            assert(sigs[j].strong.kind() == strong.kind()
                && sigs[j].strong.bytes() == strong.bytes());
            assert(false);
        }
    }
    lemma_first_match_at(sigs, alg, w, i);
}

/// A weak value with no table key matches no signature.
proof fn lemma_lookup_no_key(
    m: Map<u32, Vec<usize>>,
    sigs: Seq<BlockChecksum>,
    alg: ChecksumAlgorithm,
    w: Seq<u8>,
    wk: u32,
)
    requires
        table_of(m, sigs),
        wk == weak_of(w),
        !m.contains_key(wk),
    ensures
        first_match(sigs, alg, w) is None,
{
    assert forall|j: int| 0 <= j < sigs.len() implies !sig_matches(sigs, alg, w, j) by {
        if sig_matches(sigs, alg, w, j) {
            assert(m.contains_key(sigs[j].weak));
        }
    }
    lemma_first_match_none(sigs, alg, w);
}

/// A bucket with no strong hit leaves the window unmatched.
proof fn lemma_lookup_no_hit(
    m: Map<u32, Vec<usize>>,
    sigs: Seq<BlockChecksum>,
    alg: ChecksumAlgorithm,
    w: Seq<u8>,
    wk: u32,
    strong: StrongChecksum,
    bucket: Seq<usize>,
)
    requires
        table_of(m, sigs),
        wk == weak_of(w),
        m.contains_key(wk),
        m[wk]@ == bucket,
        strong.is_digest_of(alg, w),
        forall|k: int| 0 <= k < bucket.len()
            ==> !#[trigger] bucket_hit(sigs, bucket, strong, k),
    ensures
        first_match(sigs, alg, w) is None,
{
    assert forall|j: int| 0 <= j < sigs.len() implies !sig_matches(sigs, alg, w, j) by {
        if sig_matches(sigs, alg, w, j) {
            assert(sigs[j].weak == wk);
            assert(exists|k2: int|
                0 <= k2 < m[sigs[j].weak]@.len() && m[sigs[j].weak]@[k2] == j);
            let k2 = choose|k2: int| 0 <= k2 < bucket.len() && bucket[k2] == j;
            assert(!bucket_hit(sigs, bucket, strong, k2));
            assert(sigs[j].strong.kind() == strong.kind()
                && sigs[j].strong.bytes() == strong.bytes());
            assert(false);
        }
    }
    lemma_first_match_none(sigs, alg, w);
}

/// Computes delta instruction streams against a signature table.
pub struct Sender {
    block_size: usize,
    compressor: Option<Compressor>,
}

impl Sender {
    /// The configured block size.
    pub closed spec fn spec_block_size(&self) -> usize {
        self.block_size
    }

    /// The configured compression, if any.
    pub closed spec fn copt(&self) -> Option<CompressionAlgorithm> {
        match self.compressor {
            Some(c) => Some(c.algorithm()),
            None => None,
        }
    }

    /// The configured block size.
    #[verifier::when_used_as_spec(spec_block_size)]
    pub fn block_size(&self) -> (r: usize)
        ensures
            r == self.spec_block_size(),
    {
        self.block_size
    }

    pub fn new(block_size: usize, options: &Options) -> (r: Self)
        ensures
            r.block_size() == block_size,
            r.copt() == compression_of(*options),
    {
        let compressor = if options.compress {
            let alg = match options.compress_choice {
                Some(c) => c,
                None => CompressionAlgorithm::Zlib,
            };
            Some(Compressor::new(alg))
        } else {
            None
        };
        Self { block_size, compressor }
    }

    /// Files each signature position under its weak checksum value, in
    /// order, so that chains preserve insertion order.
    pub fn build_hash_table(checksums: &[BlockChecksum]) -> (r: HashMap<u32, Vec<usize>>)
        ensures
            table_of(r@, checksums@),
    {
        let mut table: HashMap<u32, Vec<usize>> = HashMap::new();
        let n = checksums.len();
        let mut idx: usize = 0;
        while idx < n
            invariant
                n == checksums@.len(),
                0 <= idx <= n,
                forall|w: u32| #[trigger] table@.contains_key(w) ==> table@[w]@.len() > 0,
                forall|w: u32, k: int|
                    #![trigger table@[w]@[k]]
                    table@.contains_key(w) && 0 <= k < table@[w]@.len()
                        ==> table@[w]@[k] < idx && checksums@[table@[w]@[k] as int].weak == w,
                forall|w: u32, k1: int, k2: int|
                    #![trigger table@[w]@[k1], table@[w]@[k2]]
                    table@.contains_key(w) && 0 <= k1 < k2 < table@[w]@.len()
                        ==> table@[w]@[k1] < table@[w]@[k2],
                forall|i: int|
                    0 <= i < idx ==> table@.contains_key((#[trigger] checksums@[i]).weak),
                forall|i: int|
                    0 <= i < idx ==> exists|k: int|
                        0 <= k < table@[(#[trigger] checksums@[i]).weak]@.len()
                            && table@[checksums@[i].weak]@[k] == i,
            decreases n - idx,
        {
            let ghost old_table = table@;
            let w = checksums[idx].weak;
            let mut bucket: Vec<usize> = match table.get(&w) {
                Some(b) => copy_indices(b),
                None => Vec::new(),
            };
            bucket.push(idx);
            let ghost new_bucket = bucket@;
            table.insert(w, bucket);
            proof {
                assert(table@ == old_table.insert(w, bucket));
                assert forall|i: int| 0 <= i < idx + 1 implies exists|k: int|
                    0 <= k < table@[(#[trigger] checksums@[i]).weak]@.len()
                        && table@[checksums@[i].weak]@[k] == i by {
                    let wi = checksums@[i].weak;
                    if i == idx {
                        assert(table@[wi]@[new_bucket.len() - 1] == i);
                    } else if wi == w {
                        let k0 = choose|k0: int|
                            0 <= k0 < old_table[wi]@.len() && old_table[wi]@[k0] == i;
                        assert(table@[wi]@[k0] == i);
                    } else {
                        let k0 = choose|k0: int|
                            0 <= k0 < old_table[wi]@.len() && old_table[wi]@[k0] == i;
                        assert(table@[wi]@[k0] == i);
                    }
                }
            }
            idx = idx + 1;
        }
        table
    }

    /// Runs the literal buffer through the compressor when one is
    /// configured; the result always stands for the buffered bytes.
    fn compress_literal(&self, data: &Vec<u8>) -> (r: Result<Vec<u8>, RsyncError>)
        ensures
            r is Ok,
            r matches Ok(v) ==> v@ == literal_wire(self.copt(), data@)
                && literal_payload(self.copt(), v@) == Some(data@),
    {
        match &self.compressor {
            Some(compressor) => compressor.compress(data.as_slice()),
            None => Ok(copy_bytes(data.as_slice())),
        }
    }

    /// The single-pass sliding-window scan: exactly the instruction stream
    /// of `spec_delta` — matched blocks where the lowest signature index
    /// agrees in weak and strong checksum with the window, literal bytes
    /// everywhere else — with literal payloads run through the configured
    /// compressor.  The stream also covers the whole source, so applying it
    /// to a file with these signatures reproduces the source, up to
    /// strong-digest collisions.  It always succeeds.
    #[verifier::rlimit(100)]
    #[verifier::spinoff_prover]
    pub fn compute_delta(
        &self,
        source: &[u8],
        checksums: &[BlockChecksum],
        options: &Options,
    ) -> (r: Result<Vec<DeltaInstruction>, RsyncError>)
        requires
            self.block_size() >= 1,
            forall|i: int|
                0 <= i < checksums@.len() ==> (#[trigger] checksums@[i]).index == i,
        ensures
            r is Ok,
            r matches Ok(d) ==> delta_realises(
                d@, spec_delta(source@, checksums@, self.block_size() as int,
                    chosen_checksum(*options)), self.copt()),
            r matches Ok(d) ==> delta_covers(
                source@, checksums@, self.block_size() as int, chosen_checksum(*options),
                self.copt(), d@, 0, source@.len() as int),
    {
        let ghost bs = self.block_size as int;
        let ghost alg = chosen_checksum(*options);
        let ghost copt = self.copt();
        let ghost full_model = spec_delta(source@, checksums@, bs, alg);
        let hash_table = Self::build_hash_table(checksums);
        let alg_choice = match options.checksum_choice {
            Some(a) => a,
            None => ChecksumAlgorithm::Md5,
        };
        let n = source.len();
        if n == 0 {
            let empty_delta: Vec<DeltaInstruction> = Vec::new();
            proof {
                assert(flush_model(Seq::<u8>::empty()) =~= Seq::<ModelInstruction>::empty());
            }
            return Ok(empty_delta);
        }

        let mut instructions: Vec<DeltaInstruction> = Vec::new();
        let mut pos: usize = 0;
        let mut literal_buffer: Vec<u8> = Vec::new();
        let mut rolling_checksum: Option<RollingChecksum> = None;
        let ghost mut done_models: Seq<ModelInstruction> = Seq::empty();

        proof {
            assert(source@.subrange(0, 0) =~= Seq::<u8>::empty());
            assert(done_models + spec_delta_scan(source@, checksums@, bs, alg, 0,
                Seq::empty()) =~= full_model);
        }
        while n - pos >= self.block_size
            invariant
                n == source@.len(),
                bs == self.block_size() as int,
                1 <= bs,
                alg == chosen_checksum(*options),
                alg == alg_choice,
                copt == self.copt(),
                full_model == spec_delta(source@, checksums@, bs, alg),
                table_of(hash_table@, checksums@),
                forall|i: int|
                    0 <= i < checksums@.len() ==> (#[trigger] checksums@[i]).index == i,
                0 <= pos <= n,
                literal_buffer@.len() <= pos,
                literal_buffer@ == source@.subrange(
                    pos - literal_buffer@.len(), pos as int),
                delta_covers(source@, checksums@, bs, alg, copt, instructions@, 0,
                    pos - literal_buffer@.len()),
                delta_realises(instructions@, done_models, copt),
                done_models + spec_delta_scan(source@, checksums@, bs, alg, pos as int,
                    literal_buffer@) == full_model,
                match rolling_checksum {
                    Some(rc) => pos >= 1 && pos - 1 + bs <= n && rc.matches_window(
                        source@.subrange(pos - 1, pos - 1 + bs)),
                    None => true,
                },
            decreases n - pos,
        {
            let ghost lit_start = pos - literal_buffer@.len();
            let ghost window = source@.subrange(pos as int, pos + bs);
            let (rc, weak) = match rolling_checksum {
                Some(mut rc) => {
                    let old_byte = source[pos - 1];
                    let new_byte = source[pos + self.block_size - 1];
                    proof {
                        let w = source@.subrange(pos - 1, pos - 1 + bs);
                        lemma_roll_window(w, new_byte);
                        assert(w.drop_first().push(new_byte)
                            =~= source@.subrange(pos as int, pos + bs));
                        assert(w[0] == old_byte);
                    }
                    rc.roll(old_byte, new_byte);
                    let weak = rc.checksum();
                    (rc, weak)
                }
                None => {
                    let block = &source[pos..pos + self.block_size];
                    let rc = RollingChecksum::new(block);
                    let weak = rc.checksum();
                    (rc, weak)
                }
            };
            proof {
                assert(weak == weak_of(window));
            }

            let mut matched = false;
            match hash_table.get(&weak) {
                Some(candidates) => {
                    let block = &source[pos..pos + self.block_size];
                    let strong = compute_strong_checksum(block, &alg_choice);
                    match find_strong_match(checksums, candidates, &strong) {
                        Some(match_idx) => {
                            let ghost done0 = done_models;
                            let ghost lit0 = literal_buffer@;
                            proof {
                                lemma_lookup_hit(hash_table@, checksums@, alg, window,
                                    weak, strong, candidates@, match_idx as int);
                                assert(spec_delta_scan(source@, checksums@, bs, alg,
                                    pos as int, lit0)
                                    == flush_model(lit0) + seq![
                                        ModelInstruction::MatchedBlock {
                                            index: match_idx as int }]
                                    + spec_delta_scan(source@, checksums@, bs, alg,
                                        pos + bs, Seq::empty()));
                            }
                            if literal_buffer.len() > 0 {
                                let payload = self.compress_literal(&literal_buffer)?;
                                let lit_instr = DeltaInstruction::literal_data(payload);
                                let ghost pre_flush = instructions@;
                                instructions.push(lit_instr);
                                proof {
                                    flush_step(source@, checksums@, bs, alg, copt, pre_flush,
                                        instructions@.last(), lit_start, pos as int,
                                        literal_buffer@);
                                    assert(pre_flush.push(instructions@.last())
                                        =~= instructions@);
                                    lemma_realises_snoc(pre_flush, done_models,
                                        instructions@.last(), ModelInstruction::LiteralData {
                                            data: literal_buffer@ }, copt);
                                    done_models = done_models.push(
                                        ModelInstruction::LiteralData {
                                            data: literal_buffer@ });
                                }
                                literal_buffer.clear();
                            }
                            proof {
                                assert(literal_buffer@ =~= Seq::<u8>::empty());
                            }
                            let sig_index = checksums[match_idx].index;
                            let ghost pre = instructions@;
                            instructions.push(DeltaInstruction::matched_block(sig_index));
                            proof {
                                let m_instr = DeltaInstruction::MatchedBlock {
                                    index: sig_index };
                                let w = source@.subrange(pos as int, pos + bs);
                                assert(crate::delta::window_len(source@, bs, pos as int) == bs);
                                assert(checksums@[match_idx as int].strong.is_digest_of(alg, w));
                                assert(checksums@[match_idx as int].index == match_idx as int);
                                assert(sig_index == match_idx);
                                assert(seq![m_instr].drop_first()
                                    =~= Seq::<DeltaInstruction>::empty());
                                assert(delta_covers(source@, checksums@, bs, alg, copt,
                                    Seq::<DeltaInstruction>::empty(), pos + bs, pos + bs));
                                assert(delta_covers(source@, checksums@, bs, alg, copt,
                                    seq![m_instr], pos as int, pos + bs));
                                lemma_covers_append(source@, checksums@, bs, alg, copt, pre,
                                    seq![m_instr], 0, pos as int, pos + bs);
                                assert(pre + seq![m_instr] =~= instructions@);
                                lemma_realises_snoc(pre, done_models, m_instr,
                                    ModelInstruction::MatchedBlock {
                                        index: match_idx as int }, copt);
                                done_models = done_models.push(
                                    ModelInstruction::MatchedBlock {
                                        index: match_idx as int });
                            }
                            pos = pos + self.block_size;
                            matched = true;
                            proof {
                                assert(source@.subrange(pos as int, pos as int)
                                    =~= Seq::<u8>::empty());
                                assert(done_models =~= done0 + flush_model(lit0) + seq![
                                    ModelInstruction::MatchedBlock {
                                        index: match_idx as int }]);
                                assert(done_models + spec_delta_scan(source@, checksums@,
                                    bs, alg, pos as int, Seq::empty())
                                    =~= done0 + spec_delta_scan(source@, checksums@, bs,
                                        alg, pos - bs, lit0));
                            }
                        }
                        None => {
                            proof {
                                lemma_lookup_no_hit(hash_table@, checksums@, alg, window,
                                    weak, strong, candidates@);
                            }
                        }
                    }
                }
                None => {
                    proof {
                        lemma_lookup_no_key(hash_table@, checksums@, alg, window, weak);
                    }
                }
            }

            if matched {
                rolling_checksum = None;
            } else {
                let ghost lit_before = literal_buffer@;
                proof {
                    assert(first_match(checksums@, alg, window) is None);
                    assert(spec_delta_scan(source@, checksums@, bs, alg, pos as int,
                        lit_before)
                        == spec_delta_scan(source@, checksums@, bs, alg, pos + 1,
                            lit_before.push(source@[pos as int])));
                    assert(source@.subrange(pos - literal_buffer@.len(), pos + 1)
                        =~= source@.subrange(pos - literal_buffer@.len(), pos as int).push(
                            source@[pos as int]));
                }
                literal_buffer.push(source[pos]);
                pos = pos + 1;
                rolling_checksum = Some(rc);
            }
        }

        // tail: fewer than block_size bytes remain
        if pos < n {
            let final_block = &source[pos..n];
            let tail_rolling = RollingChecksum::new(final_block);
            let weak = tail_rolling.checksum();
            let mut final_match = false;
            let ghost lit_start = pos - literal_buffer@.len();
            let ghost tail_pos = pos as int;
            let ghost window = source@.subrange(tail_pos, n as int);
            proof {
                assert(final_block@ == window);
                assert(weak == weak_of(window));
            }

            match hash_table.get(&weak) {
                Some(candidates) => {
                    let strong = compute_strong_checksum(final_block, &alg_choice);
                    match find_strong_match(checksums, candidates, &strong) {
                        Some(match_idx) => {
                            let ghost done0 = done_models;
                            let ghost lit0 = literal_buffer@;
                            proof {
                                lemma_lookup_hit(hash_table@, checksums@, alg, window,
                                    weak, strong, candidates@, match_idx as int);
                                assert(spec_delta_scan(source@, checksums@, bs, alg,
                                    tail_pos, lit0)
                                    == flush_model(lit0) + seq![
                                        ModelInstruction::MatchedBlock {
                                            index: match_idx as int }]);
                            }
                            if literal_buffer.len() > 0 {
                                let payload = self.compress_literal(&literal_buffer)?;
                                let lit_instr = DeltaInstruction::literal_data(payload);
                                let ghost pre_flush = instructions@;
                                instructions.push(lit_instr);
                                proof {
                                    flush_step(source@, checksums@, bs, alg, copt, pre_flush,
                                        instructions@.last(), lit_start, tail_pos,
                                        literal_buffer@);
                                    assert(pre_flush.push(instructions@.last())
                                        =~= instructions@);
                                    lemma_realises_snoc(pre_flush, done_models,
                                        instructions@.last(), ModelInstruction::LiteralData {
                                            data: literal_buffer@ }, copt);
                                    done_models = done_models.push(
                                        ModelInstruction::LiteralData {
                                            data: literal_buffer@ });
                                }
                                literal_buffer.clear();
                            }
                            proof {
                                assert(done_models + flush_model(Seq::<u8>::empty())
                                    =~= done_models);
                            }
                            let sig_index = checksums[match_idx].index;
                            let ghost pre = instructions@;
                            instructions.push(DeltaInstruction::matched_block(sig_index));
                            proof {
                                let m_instr = DeltaInstruction::MatchedBlock {
                                    index: sig_index };
                                let w = source@.subrange(tail_pos, n as int);
                                assert(crate::delta::window_len(source@, bs, tail_pos)
                                    == n - tail_pos);
                                assert(checksums@[match_idx as int].strong.is_digest_of(alg, w));
                                assert(checksums@[match_idx as int].index == match_idx as int);
                                assert(sig_index == match_idx);
                                assert(seq![m_instr].drop_first()
                                    =~= Seq::<DeltaInstruction>::empty());
                                assert(delta_covers(source@, checksums@, bs, alg, copt,
                                    Seq::<DeltaInstruction>::empty(), n as int, n as int));
                                assert(delta_covers(source@, checksums@, bs, alg, copt,
                                    seq![m_instr], tail_pos, n as int));
                                lemma_covers_append(source@, checksums@, bs, alg, copt, pre,
                                    seq![m_instr], 0, tail_pos, n as int);
                                assert(pre + seq![m_instr] =~= instructions@);
                                lemma_realises_snoc(pre, done_models, m_instr,
                                    ModelInstruction::MatchedBlock {
                                        index: match_idx as int }, copt);
                                done_models = done_models.push(
                                    ModelInstruction::MatchedBlock {
                                        index: match_idx as int });
                            }
                            proof {
                                assert(done_models =~= done0 + flush_model(lit0) + seq![
                                    ModelInstruction::MatchedBlock {
                                        index: match_idx as int }]);
                                assert(done_models =~= full_model);
                            }
                            final_match = true;
                        }
                        None => {
                            proof {
                                lemma_lookup_no_hit(hash_table@, checksums@, alg, window,
                                    weak, strong, candidates@);
                            }
                        }
                    }
                }
                None => {
                    proof {
                        lemma_lookup_no_key(hash_table@, checksums@, alg, window, weak);
                    }
                }
            }

            if final_match {
                proof {
                    assert(done_models == full_model);
                }
                return Ok(instructions);
            }
            proof {
                assert(first_match(checksums@, alg, window) is None);
                assert(spec_delta_scan(source@, checksums@, bs, alg, tail_pos,
                    literal_buffer@)
                    == seq![ModelInstruction::LiteralData {
                        data: literal_buffer@ + window }]);
                assert(source@.subrange(lit_start, n as int)
                    =~= source@.subrange(lit_start, tail_pos)
                        + source@.subrange(tail_pos, n as int));
            }
            append_bytes(&mut literal_buffer, final_block);
            proof {
                lemma_extend_bytes(literal_buffer@, source@, lit_start, tail_pos, n as int);
                assert(flush_model(literal_buffer@) =~= seq![ModelInstruction::LiteralData {
                    data: literal_buffer@ }]);
            }
            pos = n;
        } else {
            proof {
                assert(spec_delta_scan(source@, checksums@, bs, alg, pos as int,
                    literal_buffer@) == flush_model(literal_buffer@));
            }
        }

        // here `done_models + flush_model(literal_buffer@)` is the whole model
        if literal_buffer.len() > 0 {
            let ghost lit_start = n - literal_buffer@.len();
            let payload = self.compress_literal(&literal_buffer)?;
            let lit_instr = DeltaInstruction::literal_data(payload);
            let ghost pre_flush = instructions@;
            instructions.push(lit_instr);
            proof {
                flush_step(source@, checksums@, bs, alg, copt, pre_flush,
                    instructions@.last(), lit_start, n as int, literal_buffer@);
                assert(pre_flush.push(instructions@.last()) =~= instructions@);
                lemma_realises_snoc(pre_flush, done_models, instructions@.last(),
                    ModelInstruction::LiteralData { data: literal_buffer@ }, copt);
                done_models = done_models.push(ModelInstruction::LiteralData {
                    data: literal_buffer@ });
                assert(done_models =~= full_model);
            }
        } else {
            proof {
                assert(flush_model(literal_buffer@) =~= Seq::<ModelInstruction>::empty());
                assert(done_models =~= full_model);
            }
        }
        Ok(instructions)
    }
}

/// Appending a literal instruction for the buffered bytes extends coverage
/// from the buffer start to the current position.
proof fn flush_step(
    src: Seq<u8>,
    sigs: Seq<BlockChecksum>,
    bs: int,
    alg: ChecksumAlgorithm,
    copt: Option<CompressionAlgorithm>,
    pre: Seq<DeltaInstruction>,
    lit_instr: DeltaInstruction,
    lit_start: int,
    pos: int,
    buffered: Seq<u8>,
)
    requires
        delta_covers(src, sigs, bs, alg, copt, pre, 0, lit_start),
        lit_instr matches DeltaInstruction::LiteralData { data }
            && literal_payload(copt, data@) == Some(buffered),
        buffered.len() > 0,
        0 <= lit_start,
        lit_start + buffered.len() == pos,
        pos <= src.len(),
        buffered == src.subrange(lit_start, pos),
    ensures
        delta_covers(src, sigs, bs, alg, copt, pre.push(lit_instr), 0, pos),
{
    assert(seq![lit_instr].drop_first() =~= Seq::<DeltaInstruction>::empty());
    assert(delta_covers(src, sigs, bs, alg, copt, Seq::<DeltaInstruction>::empty(), pos, pos));
    assert(delta_covers(src, sigs, bs, alg, copt, seq![lit_instr], lit_start, pos));
    lemma_covers_append(src, sigs, bs, alg, copt, pre, seq![lit_instr], 0, lit_start, pos);
    assert(pre + seq![lit_instr] =~= pre.push(lit_instr));
}

proof fn lemma_extend_bytes(lit: Seq<u8>, src: Seq<u8>, lit_start: int, mid: int, to: int)
    requires
        0 <= lit_start <= mid <= to <= src.len(),
        lit == src.subrange(lit_start, mid) + src.subrange(mid, to),
    ensures
        lit == src.subrange(lit_start, to),
        lit.len() == to - lit_start,
{
    assert(src.subrange(lit_start, mid) + src.subrange(mid, to)
        =~= src.subrange(lit_start, to));
}

/// Appends a byte slice to a buffer.
fn append_bytes(dst: &mut Vec<u8>, data: &[u8])
    ensures
        final(dst)@ == old(dst)@ + data@,
{
    let n = data.len();
    let mut i: usize = 0;
    while i < n
        invariant
            n == data@.len(),
            0 <= i <= n,
            dst@ == old(dst)@ + data@.subrange(0, i as int),
        decreases n - i,
    {
        dst.push(data[i]);
        proof {
            assert(old(dst)@ + data@.subrange(0, i + 1)
                =~= (old(dst)@ + data@.subrange(0, i as int)).push(data@[i as int]));
        }
        i = i + 1;
    }
    proof {
        assert(data@.subrange(0, n as int) =~= data@);
    }
}

/// Copies a bucket of signature positions.
fn copy_indices(data: &Vec<usize>) -> (r: Vec<usize>)
    ensures
        r@ == data@,
{
    let n = data.len();
    let mut r: Vec<usize> = Vec::new();
    let mut i: usize = 0;
    while i < n
        invariant
            n == data@.len(),
            0 <= i <= n,
            r@ == data@.subrange(0, i as int),
        decreases n - i,
    {
        r.push(data[i]);
        proof {
            assert(data@.subrange(0, i + 1)
                =~= data@.subrange(0, i as int).push(data@[i as int]));
        }
        i = i + 1;
    }
    proof {
        assert(data@.subrange(0, n as int) =~= data@);
    }
    r
}

/// The bucket entry at `k` carries exactly the sought digest.
pub open spec fn bucket_hit(
    sigs: Seq<BlockChecksum>,
    bucket: Seq<usize>,
    strong: StrongChecksum,
    k: int,
) -> bool {
    &&& sigs[bucket[k] as int].strong.kind() == strong.kind()
    &&& sigs[bucket[k] as int].strong.bytes() == strong.bytes()
}

/// Scans a weak-value chain in insertion order for the first signature
/// whose strong digest equals `strong`.
fn find_strong_match(
    checksums: &[BlockChecksum],
    bucket: &Vec<usize>,
    strong: &StrongChecksum,
) -> (r: Option<usize>)
    requires
        forall|k: int|
            0 <= k < bucket@.len() ==> (#[trigger] bucket@[k]) < checksums@.len(),
    ensures
        r matches Some(i) ==> i < checksums@.len()
            && (exists|k: int|
                0 <= k < bucket@.len() && bucket@[k] == i
                    && #[trigger] bucket_hit(checksums@, bucket@, *strong, k)
                    && forall|j: int| 0 <= j < k
                        ==> !bucket_hit(checksums@, bucket@, *strong, j)),
        r is None ==> forall|k: int| 0 <= k < bucket@.len()
            ==> !#[trigger] bucket_hit(checksums@, bucket@, *strong, k),
{
    let n = bucket.len();
    let mut k: usize = 0;
    while k < n
        invariant
            n == bucket@.len(),
            0 <= k <= n,
            forall|j: int|
                0 <= j < bucket@.len() ==> (#[trigger] bucket@[j]) < checksums@.len(),
            forall|j: int| 0 <= j < k
                ==> !#[trigger] bucket_hit(checksums@, bucket@, *strong, j),
        decreases n - k,
    {
        let candidate = bucket[k];
        if checksums[candidate].strong.equals(strong) {
            proof {
                assert(bucket_hit(checksums@, bucket@, *strong, k as int));
            }
            return Some(candidate);
        }
        k = k + 1;
    }
    None
}

} // verus!
