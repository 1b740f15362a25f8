//! Block-signature generation: the reference file is cut into fixed-size
//! blocks (the last possibly short) and each block gets a weak rolling
//! checksum and a strong digest.

use vstd::prelude::*;
use crate::checksum::{
    compute_strong_checksum, weak_of, RollingChecksum, StrongChecksum,
};
use crate::options::ChecksumAlgorithm;

verus! {

/// The signature of one reference block.
#[derive(Debug, Clone)]
pub struct BlockChecksum {
    /// Position of the block: block `i` starts at byte `i * block_size`.
    pub index: u32,
    /// The 32-bit weak rolling checksum of the block.
    pub weak: u32,
    /// The strong digest of the block.
    pub strong: StrongChecksum,
}

/// The bytes of block `i` when `data` is cut into blocks of `bs` bytes; the
/// last block may be short.
pub open spec fn block_at(data: Seq<u8>, bs: int, i: int) -> Seq<u8> {
    let lo = i * bs;
    let hi = if lo + bs <= data.len() {
        lo + bs
    } else {
        data.len() as int
    };
    data.subrange(lo, hi)
}

/// How many blocks of size `bs` cover `len` bytes.
pub open spec fn num_blocks(len: int, bs: int) -> int
    decreases (if len > 0 { len } else { 0 }),
{
    if len <= 0 || bs <= 0 {
        0
    } else {
        1 + num_blocks(len - bs, bs)
    }
}

/// `sigs` is exactly the signature list of `data` cut into `bs`-byte blocks
/// under digest algorithm `alg`.
pub open spec fn sigs_of(
    sigs: Seq<BlockChecksum>,
    data: Seq<u8>,
    bs: int,
    alg: ChecksumAlgorithm,
) -> bool {
    &&& sigs.len() == num_blocks(data.len() as int, bs)
    &&& forall|i: int| 0 <= i < sigs.len() ==> (#[trigger] sigs[i]).index == i
    &&& forall|i: int|
        0 <= i < sigs.len() ==> (#[trigger] sigs[i]).weak == weak_of(block_at(data, bs, i))
    &&& forall|i: int|
        0 <= i < sigs.len() ==> (#[trigger] sigs[i]).strong.is_digest_of(
            alg, block_at(data, bs, i))
}

/// Produces block signatures for a reference file held in memory.
pub struct Generator {
    block_size: usize,
    checksum_algorithm: ChecksumAlgorithm,
}

impl Generator {
    pub fn new(block_size: usize, checksum_algorithm: ChecksumAlgorithm) -> (r: Self)
        ensures
            r.block_size() == block_size,
            r.algorithm() == checksum_algorithm,
    {
        Self { block_size, checksum_algorithm }
    }

    /// The configured block size.
    pub closed spec fn spec_block_size(&self) -> usize {
        self.block_size
    }

    /// The configured digest algorithm.
    pub closed spec fn algorithm(&self) -> ChecksumAlgorithm {
        self.checksum_algorithm
    }

    /// The configured block size.
    #[verifier::when_used_as_spec(spec_block_size)]
    pub fn block_size(&self) -> (r: usize)
        ensures
            r == self.spec_block_size(),
    {
        self.block_size
    }

    /// Walks the data block by block, emitting `(index, weak, strong)`
    /// signatures in order.  An empty input yields an empty list.
    pub fn generate_checksums(&self, data: &[u8]) -> (r: Vec<BlockChecksum>)
        requires
            self.block_size() >= 1,
            num_blocks(data@.len() as int, self.block_size() as int) <= u32::MAX,
        ensures
            sigs_of(r@, data@, self.block_size() as int, self.algorithm()),
    {
        let ghost bs = self.block_size as int;
        let n = data.len();
        let mut checksums: Vec<BlockChecksum> = Vec::new();
        let mut pos: usize = 0;
        let mut index: u32 = 0;
        proof {
            lemma_num_blocks_step(data@.len() as int, bs, 0);
        }
        while pos < n
            invariant
                n == data@.len(),
                1 <= self.block_size(),
                0 <= pos <= n,
                pos < n ==> pos == index * bs,
                pos == index * bs || pos == n,
                checksums@.len() == index,
                index + num_blocks(n - pos, bs) == num_blocks(n as int, bs),
                num_blocks(n as int, bs) <= u32::MAX,
                bs == self.block_size() as int,
                forall|i: int| 0 <= i < checksums@.len()
                    ==> (#[trigger] checksums@[i]).index == i,
                forall|i: int| 0 <= i < checksums@.len()
                    ==> (#[trigger] checksums@[i]).weak == weak_of(block_at(data@, bs, i)),
                forall|i: int| 0 <= i < checksums@.len()
                    ==> (#[trigger] checksums@[i]).strong.is_digest_of(
                        self.algorithm(), block_at(data@, bs, i)),
            decreases n - pos,
        {
            let end = if n - pos > self.block_size {
                pos + self.block_size
            } else {
                n
            };
            let block = &data[pos..end];
            proof {
                lemma_num_blocks_bounds(n - pos, bs);
                assert(num_blocks(n - pos, bs) >= 1);
                assert(block@ =~= block_at(data@, bs, index as int));
            }
            let rolling = RollingChecksum::new(block);
            let weak = rolling.checksum();
            proof {
                crate::checksum::lemma_weak_of_parts(block@);
            }
            let strong = compute_strong_checksum(block, &self.checksum_algorithm);
            checksums.push(BlockChecksum { index, weak, strong });
            proof {
                lemma_num_blocks_step(n as int, bs, (index + 1) as int);
                assert((index + 1) * bs == index * bs + bs) by (nonlinear_arith);
            }
            proof {
                if n - end > 0 {
                    assert(end == (index + 1) * bs);
                } else {
                    lemma_num_blocks_bounds(n - pos, bs);
                    assert(num_blocks(n - pos, bs) == 1);
                }
            }
            pos = end;
            index = index + 1;
        }
        proof {
            lemma_num_blocks_bounds(0, bs);
            assert(num_blocks(n - pos, bs) == 0);
        }
        checksums
    }

    /// The block-size policy: `max(700, min(131072, isqrt(file_size)))`.
    pub fn calculate_block_size(file_size: u64) -> (r: usize)
        ensures
            r == spec_block_size_for(file_size as nat),
    {
        let ceiling: u64 = 131072;
        if file_size >= ceiling * ceiling {
            proof {
                lemma_isqrt_bracket(file_size as nat);
                let s = isqrt_spec(file_size as nat);
                assert(s >= 131072) by {
                    if s < 131072 {
                        assert((s + 1) * (s + 1) <= 131072 * 131072) by (nonlinear_arith)
                            requires 0 <= s < 131072;
                    }
                }
            }
            return 131072;
        }
        // binary search for the integer square root
        let mut lo: u64 = 0;
        let mut hi: u64 = 131073;
        proof {
            assert(131073u64 * 131073u64 > file_size);
        }
        while lo + 1 < hi
            invariant
                lo < hi <= 131073,
                lo * lo <= file_size,
                file_size < hi * hi,
            decreases hi - lo,
        {
            let mid = lo + (hi - lo) / 2;
            proof {
                assert(mid * mid <= 131073u64 * 131073u64) by (nonlinear_arith)
                    requires 0 <= mid <= 131073u64;
            }
            if mid * mid <= file_size {
                lo = mid;
            } else {
                hi = mid;
            }
        }
        proof {
            lemma_isqrt_bracket(file_size as nat);
            lemma_isqrt_unique(file_size as nat, lo as nat);
        }
        let root = lo as usize;
        if root < 700 {
            700
        } else if root > 131072 {
            131072
        } else {
            root
        }
    }
}

/// The integer square root, defined by counting up.
pub open spec fn isqrt_spec(n: nat) -> nat
    decreases n,
{
    if n == 0 {
        0
    } else {
        let p = isqrt_spec((n - 1) as nat);
        if (p + 1) * (p + 1) <= n {
            p + 1
        } else {
            p
        }
    }
}

/// The block-size policy as a function of the file size.
pub open spec fn spec_block_size_for(n: nat) -> int {
    let s = isqrt_spec(n);
    if s < 700 {
        700
    } else if s > 131072 {
        131072
    } else {
        s as int
    }
}

/// The integer square root brackets its argument.
pub proof fn lemma_isqrt_bracket(n: nat)
    ensures
        isqrt_spec(n) * isqrt_spec(n) <= n,
        n < (isqrt_spec(n) + 1) * (isqrt_spec(n) + 1),
    decreases n,
{
    if n == 0 {
        assert(isqrt_spec(0) == 0);
        assert(isqrt_spec(n) * isqrt_spec(n) <= n);
        assert(n < (isqrt_spec(n) + 1) * (isqrt_spec(n) + 1)) by (nonlinear_arith)
            requires
                n == 0,
                isqrt_spec(n) == 0,
        ;
    } else {
        lemma_isqrt_bracket((n - 1) as nat);
        let p = isqrt_spec((n - 1) as nat);
        assert(p * p <= n - 1 && n - 1 < (p + 1) * (p + 1));
        if (p + 1) * (p + 1) <= n {
            assert(isqrt_spec(n) == p + 1);
            assert(((p + 1) + 1) * (((p + 1) + 1)) == (p + 1) * (p + 1) + 2 * (p + 1) + 1)
                by (nonlinear_arith);
            assert(n < ((p + 1) + 1) * ((p + 1) + 1));
            assert(isqrt_spec(n) * isqrt_spec(n) <= n);
            assert(n < (isqrt_spec(n) + 1) * (isqrt_spec(n) + 1));
        } else {
            assert(isqrt_spec(n) == p);
            assert(p * p <= n);
            assert(n < (p + 1) * (p + 1));
            assert(isqrt_spec(n) * isqrt_spec(n) <= n);
            assert(n < (isqrt_spec(n) + 1) * (isqrt_spec(n) + 1));
        }
    }
}

/// Any value bracketing `n` is the integer square root.
pub proof fn lemma_isqrt_unique(n: nat, r: nat)
    requires
        r * r <= n,
        n < (r + 1) * (r + 1),
    ensures
        r == isqrt_spec(n),
{
    lemma_isqrt_bracket(n);
    let s = isqrt_spec(n);
    if r < s {
        assert((r + 1) * (r + 1) <= s * s) by (nonlinear_arith)
            requires r < s;
    }
    if s < r {
        assert((s + 1) * (s + 1) <= r * r) by (nonlinear_arith)
            requires s < r;
    }
}

proof fn lemma_num_blocks_step(len: int, bs: int, k: int)
    requires
        bs >= 1,
    ensures
        len - k * bs > 0 ==> num_blocks(len - k * bs, bs) == 1 + num_blocks(len - (k + 1) * bs, bs),
        len - k * bs <= 0 ==> num_blocks(len - k * bs, bs) == 0,
{
    assert((k + 1) * bs == k * bs + bs) by (nonlinear_arith);
}

/// The number of blocks is positive exactly on non-empty data, and one block
/// suffices when the data fits in one block.
pub proof fn lemma_num_blocks_bounds(len: int, bs: int)
    requires
        bs >= 1,
        len >= 0,
    ensures
        num_blocks(len, bs) >= 0,
        (num_blocks(len, bs) == 0) == (len == 0),
        0 < len <= bs ==> num_blocks(len, bs) == 1,
    decreases len,
{
    if len > 0 {
        if len - bs >= 0 {
            lemma_num_blocks_bounds(len - bs, bs);
        } else {
            assert(num_blocks(len - bs, bs) == 0);
        }
    }
}

} // verus!
