//! Weak rolling checksum and strong content digests.
//!
//! The weak checksum is a 32-bit hash of a byte window, split into two 16-bit
//! sums `a` and `b`; sliding the window by one byte updates it in constant
//! time.  The strong digest (MD4, MD5 or BLAKE2b-512) confirms a weak match
//! before a block is accepted.

use vstd::prelude::*;
use vstd::arithmetic::div_mod::{
    lemma_add_mod_noop, lemma_add_mod_noop_right, lemma_sub_mod_noop_right,
    lemma_mod_add_multiples_vanish, lemma_mod_twice, lemma_mul_mod_noop_left, lemma_small_mod,
};
use digest::Digest;
use crate::options::ChecksumAlgorithm;
use crate::text::bytes_eq;

verus! {

/// The sum of the window's bytes, before reduction.
pub open spec fn sum_a(data: Seq<u8>) -> int
    decreases data.len(),
{
    if data.len() == 0 {
        0
    } else {
        sum_a(data.drop_last()) + data.last()
    }
}

/// The position-weighted sum `sum over i of (len - i) * data[i]`, before
/// reduction.
pub open spec fn sum_b(data: Seq<u8>) -> int
    decreases data.len(),
{
    if data.len() == 0 {
        0
    } else {
        sum_b(data.drop_last()) + sum_a(data)
    }
}

/// The 16-bit component `a` of the weak checksum.
pub open spec fn weak_a(data: Seq<u8>) -> int {
    sum_a(data) % 0x10000
}

/// The 16-bit component `b` of the weak checksum.
pub open spec fn weak_b(data: Seq<u8>) -> int {
    sum_b(data) % 0x10000
}

/// The composed 32-bit weak checksum `(b << 16) | a`.
pub open spec fn weak_of(data: Seq<u8>) -> int {
    weak_b(data) * 0x10000 + weak_a(data)
}

/// The window length reduced to 16 bits and multiplied by a byte, reduced
/// again: the term the roll step subtracts for the outgoing byte.
pub open spec fn mul16(len: int, byte: int) -> int {
    ((len % 0x10000) * byte) % 0x10000
}

/// The `a` component after one roll step.
pub open spec fn roll_a_val(a: int, outgoing: int, incoming: int) -> int {
    (a + 0x10000 - outgoing + incoming) % 0x10000
}

/// The `b` component after one roll step.
pub open spec fn roll_b_val(b: int, len: int, outgoing: int, a_new: int) -> int {
    (b + 0x20000 - mul16(len, outgoing) + a_new) % 0x10000
}

proof fn lemma_sum_push(data: Seq<u8>, y: u8)
    ensures
        sum_a(data.push(y)) == sum_a(data) + y,
        sum_b(data.push(y)) == sum_b(data) + sum_a(data) + y,
{
    assert(data.push(y).drop_last() =~= data);
    assert(data.push(y).last() == y);
}

proof fn lemma_sum_drop_first(data: Seq<u8>)
    requires
        data.len() >= 1,
    ensures
        sum_a(data.drop_first()) == sum_a(data) - data[0],
        sum_b(data.drop_first()) == sum_b(data) - data.len() * data[0],
    decreases data.len(),
{
    let l = data.len() as int;
    let d0 = data[0] as int;
    if data.len() == 1 {
        assert(data.drop_first() =~= Seq::<u8>::empty());
        assert(data.drop_last() =~= Seq::<u8>::empty());
        assert(sum_a(Seq::<u8>::empty()) == 0);
        assert(sum_b(Seq::<u8>::empty()) == 0);
        assert(sum_a(data) == d0);
        assert(sum_b(data) == d0);
        assert(l * d0 == d0) by (nonlinear_arith)
            requires l == 1;
    } else {
        let dl = data.drop_last();
        lemma_sum_drop_first(dl);
        assert(data.drop_first() =~= dl.drop_first().push(data.last()));
        lemma_sum_push(dl.drop_first(), data.last());
        // sum_a over the slid prefix
        assert(sum_a(data.drop_first()) == sum_a(dl) - d0 + data.last());
        assert(sum_a(data) == sum_a(dl) + data.last());
        // sum_b: the outgoing byte loses one weight unit per element
        assert(sum_b(data.drop_first()) == (sum_b(dl) - (l - 1) * d0) + (sum_a(dl) - d0) + data.last());
        assert(sum_b(data) == sum_b(dl) + sum_a(data));
        assert((l - 1) * d0 + d0 == l * d0) by (nonlinear_arith);
    }
}

/// One roll step really slides the window: the recurrences applied to the
/// checksum of `w` give the checksum of `w` shifted left by one byte with `y`
/// appended.
pub proof fn lemma_roll_window(w: Seq<u8>, y: u8)
    requires
        w.len() >= 1,
    ensures
        weak_a(w.drop_first().push(y)) == roll_a_val(weak_a(w), w[0] as int, y as int),
        weak_b(w.drop_first().push(y)) == roll_b_val(
            weak_b(w), w.len() as int, w[0] as int, weak_a(w.drop_first().push(y))),
{
    let m: int = 0x10000;
    let l = w.len() as int;
    let d0 = w[0] as int;
    let w2 = w.drop_first().push(y);
    lemma_sum_drop_first(w);
    lemma_sum_push(w.drop_first(), y);
    assert(sum_a(w2) == sum_a(w) - d0 + y);
    assert(sum_b(w2) == sum_b(w) - l * d0 + sum_a(w2));

    // a component: (sum_a(w) % m + m - d0 + y) % m == (sum_a(w) - d0 + y) % m
    assert(weak_a(w2) == roll_a_val(weak_a(w), d0, y as int)) by {
        lemma_add_mod_noop_right(m - d0 + y, sum_a(w), m);
        assert((m - d0 + y + weak_a(w)) % m == (m - d0 + y + sum_a(w)) % m);
        lemma_mod_add_multiples_vanish(sum_a(w) - d0 + y, m);
    }

    // b component: reduce the length and the product, then shift by 2 * m
    assert(weak_b(w2) == roll_b_val(weak_b(w), l, d0, weak_a(w2))) by {
        lemma_mul_mod_noop_left(l, d0, m);
        assert((l * d0) % m == mul16(l, d0));
        // replace weak_b(w) by sum_b(w)
        lemma_add_mod_noop_right(0x20000 - mul16(l, d0) + weak_a(w2), sum_b(w), m);
        assert((weak_b(w) + 0x20000 - mul16(l, d0) + weak_a(w2)) % m
            == (sum_b(w) + 0x20000 - mul16(l, d0) + weak_a(w2)) % m);
        // replace mul16 by the true product
        lemma_sub_mod_noop_right(sum_b(w) + 0x20000 + weak_a(w2), l * d0, m);
        assert((sum_b(w) + 0x20000 + weak_a(w2) - mul16(l, d0)) % m
            == (sum_b(w) + 0x20000 + weak_a(w2) - l * d0) % m);
        // replace weak_a(w2) by sum_a(w2)
        lemma_add_mod_noop_right(sum_b(w) + 0x20000 - l * d0, sum_a(w2), m);
        assert((sum_b(w) + 0x20000 - l * d0 + weak_a(w2)) % m
            == (sum_b(w) + 0x20000 - l * d0 + sum_a(w2)) % m);
        // drop the 2 * m shift
        lemma_mod_add_multiples_vanish(sum_b(w) - l * d0 + sum_a(w2) + m, m);
        lemma_mod_add_multiples_vanish(sum_b(w) - l * d0 + sum_a(w2), m);
        assert((sum_b(w) + 0x20000 - l * d0 + sum_a(w2)) % m == sum_b(w2) % m);
    }
}

/// The `a` component reached after rolling the initial window of length `l`
/// forward `i` times over `data`.
pub open spec fn rolled_a(data: Seq<u8>, l: int, i: int) -> int
    decreases i,
{
    if i <= 0 {
        weak_a(data.subrange(0, l))
    } else {
        roll_a_val(rolled_a(data, l, i - 1), data[i - 1] as int, data[i + l - 1] as int)
    }
}

/// The `b` component reached after rolling the initial window of length `l`
/// forward `i` times over `data`.
pub open spec fn rolled_b(data: Seq<u8>, l: int, i: int) -> int
    decreases i,
{
    if i <= 0 {
        weak_b(data.subrange(0, l))
    } else {
        roll_b_val(rolled_b(data, l, i - 1), l, data[i - 1] as int, rolled_a(data, l, i))
    }
}

/// Rolling consistency: for any byte sequence and window length, the weak
/// checksum obtained by initialising over `data[i..i+l]` equals the one
/// obtained by initialising over `data[0..l]` and applying the roll step `i`
/// times.
pub proof fn lemma_rolling_consistency(data: Seq<u8>, l: int, i: int)
    requires
        1 <= l,
        0 <= i,
        i + l <= data.len(),
    ensures
        rolled_a(data, l, i) == weak_a(data.subrange(i, i + l)),
        rolled_b(data, l, i) == weak_b(data.subrange(i, i + l)),
    decreases i,
{
    if i > 0 {
        lemma_rolling_consistency(data, l, i - 1);
        let w = data.subrange(i - 1, i - 1 + l);
        let y = data[i + l - 1];
        lemma_roll_window(w, y);
        assert(w.drop_first().push(y) =~= data.subrange(i, i + l));
        assert(w[0] == data[i - 1]);
    }
}

/// The weak rolling checksum over one window.  `a` and `b` are the reduced
/// sums of the current window; `block_size` is the window length the checksum
/// was initialised with.
#[derive(Debug, Clone)]
pub struct RollingChecksum {
    pub a: u16,
    pub b: u16,
    pub block_size: usize,
}

impl RollingChecksum {
    /// The checksum state describes the window `w`.
    pub open spec fn matches_window(self, w: Seq<u8>) -> bool {
        self.a == weak_a(w) && self.b == weak_b(w) && self.block_size == w.len()
    }

    /// Initialises the checksum over a whole window.
    pub fn new(data: &[u8]) -> (r: Self)
        ensures
            r.matches_window(data@),
    {
        let mut checksum = Self { a: 0, b: 0, block_size: data.len() };
        checksum.update(data);
        checksum
    }

    /// Recomputes both sums over `data` from scratch.
    fn update(&mut self, data: &[u8])
        ensures
            final(self).a == weak_a(data@),
            final(self).b == weak_b(data@),
            final(self).block_size == old(self).block_size,
    {
        self.a = 0;
        self.b = 0;
        let n = data.len();
        let mut i: usize = 0;
        proof {
            assert(data@.subrange(0, 0) =~= Seq::<u8>::empty());
        }
        while i < n
            invariant
                n == data@.len(),
                0 <= i <= n,
                self.a == weak_a(data@.subrange(0, i as int)),
                self.b == weak_b(data@.subrange(0, i as int)),
                self.block_size == old(self).block_size,
            decreases n - i,
        {
            let ghost prefix = data@.subrange(0, i as int);
            let byte = data[i];
            let a_new = ((self.a as u32 + byte as u32) % 0x10000) as u16;
            let b_new = ((self.b as u32 + a_new as u32) % 0x10000) as u16;
            proof {
                let m: int = 0x10000;
                lemma_sum_push(prefix, byte);
                assert(prefix.push(byte) =~= data@.subrange(0, i + 1));
                lemma_add_mod_noop(sum_a(prefix), byte as int, m);
                lemma_small_mod(byte as nat, m as nat);
                assert((weak_a(prefix) + byte) % m == weak_a(data@.subrange(0, i + 1)));
                lemma_add_mod_noop(sum_b(prefix), sum_a(prefix) + byte, m);
                lemma_mod_twice(sum_a(prefix) + byte, m);
                assert((weak_b(prefix) + a_new) % m == weak_b(data@.subrange(0, i + 1)));
            }
            self.a = a_new;
            self.b = b_new;
            i = i + 1;
        }
        proof {
            assert(data@.subrange(0, n as int) =~= data@);
        }
    }

    /// Slides the window one byte: removes `old_byte` at the front, appends
    /// `new_byte` at the back, in constant time.
    pub fn roll(&mut self, old_byte: u8, new_byte: u8)
        ensures
            final(self).block_size == old(self).block_size,
            final(self).a == roll_a_val(old(self).a as int, old_byte as int, new_byte as int),
            final(self).b == roll_b_val(
                old(self).b as int, old(self).block_size as int, old_byte as int,
                final(self).a as int),
    {
        let a_new = ((self.a as u32 + 0x10000 - old_byte as u32 + new_byte as u32)
            % 0x10000) as u16;
        let len16 = (self.block_size % 0x10000) as u32;
        proof {
            assert(len16 * old_byte <= 0xFFFF * 0xFF) by (nonlinear_arith)
                requires len16 <= 0xFFFF, old_byte <= 0xFF;
        }
        let product = (len16 * old_byte as u32) % 0x10000;
        let b_new = ((self.b as u32 + 0x20000 - product + a_new as u32) % 0x10000) as u16;
        self.a = a_new;
        self.b = b_new;
    }

    /// The composed 32-bit value `(b << 16) | a`.
    pub fn checksum(&self) -> (r: u32)
        ensures
            r == self.b * 0x10000 + self.a,
    {
        let r = ((self.b as u32) << 16) | (self.a as u32);
        proof {
            let b = self.b;
            let a = self.a;
            assert(((b as u32) << 16) | (a as u32) == b * 0x10000 + a) by (bit_vector);
        }
        r
    }

    /// The window length this checksum was initialised with.
    pub fn block_size(&self) -> (r: usize)
        ensures
            r == self.block_size,
    {
        self.block_size
    }
}

/// Two windows with equal views have equal weak checksums; the composed value
/// determines both components.
pub proof fn lemma_weak_of_parts(data: Seq<u8>)
    ensures
        weak_of(data) == weak_b(data) * 0x10000 + weak_a(data),
        0 <= weak_a(data) < 0x10000,
        0 <= weak_b(data) < 0x10000,
{
}

} // verus!

verus! {

/// What each strong digest returns, named: the bytes are a function of the
/// input alone.
pub uninterp spec fn md4_of(data: Seq<u8>) -> Seq<u8>;

/// What the MD5 digest returns, named as a function of the input.
pub uninterp spec fn md5_of(data: Seq<u8>) -> Seq<u8>;

/// What the BLAKE2b-512 digest returns, named as a function of the input.
pub uninterp spec fn blake2b_of(data: Seq<u8>) -> Seq<u8>;

/// Relies on `md4::Md4::digest` (RustCrypto): a 16-byte digest that depends
/// on the input bytes alone.
#[verifier::external_body]
fn md4_sum(data: &[u8]) -> (r: Vec<u8>)
    ensures
        r@ == md4_of(data@),
        r@.len() == 16,
{
    md4::Md4::digest(data).to_vec()
}

/// Relies on `md5::Md5::digest` (RustCrypto, package `md-5`): a 16-byte
/// digest that depends on the input bytes alone.
#[verifier::external_body]
fn md5_sum(data: &[u8]) -> (r: Vec<u8>)
    ensures
        r@ == md5_of(data@),
        r@.len() == 16,
{
    md5::Md5::digest(data).to_vec()
}

/// Relies on `blake2::Blake2b512::digest`: a 64-byte digest that depends on
/// the input bytes alone.
#[verifier::external_body]
fn blake2b_sum(data: &[u8]) -> (r: Vec<u8>)
    ensures
        r@ == blake2b_of(data@),
        r@.len() == 64,
{
    blake2::Blake2b512::digest(data).to_vec()
}

/// The digest bytes the chosen algorithm produces for `data`.  `Xxh128` is
/// served by MD5.
pub open spec fn strong_bytes_of(alg: ChecksumAlgorithm, data: Seq<u8>) -> Seq<u8> {
    match alg {
        ChecksumAlgorithm::Md4 => md4_of(data),
        ChecksumAlgorithm::Md5 => md5_of(data),
        ChecksumAlgorithm::Blake2 => blake2b_of(data),
        ChecksumAlgorithm::Xxh128 => md5_of(data),
    }
}

/// A strong digest, tagged with the algorithm that produced it.
#[derive(Debug, Clone)]
pub enum StrongChecksum {
    Md4(Vec<u8>),
    Md5(Vec<u8>),
    Blake2(Vec<u8>),
}

impl StrongChecksum {
    /// The digest bytes, independent of the tag.
    pub open spec fn bytes(&self) -> Seq<u8> {
        match self {
            StrongChecksum::Md4(b) => b@,
            StrongChecksum::Md5(b) => b@,
            StrongChecksum::Blake2(b) => b@,
        }
    }

    /// A small integer distinguishing the variants, for equality reasoning.
    pub open spec fn kind(&self) -> int {
        match self {
            StrongChecksum::Md4(_) => 0,
            StrongChecksum::Md5(_) => 1,
            StrongChecksum::Blake2(_) => 2,
        }
    }

    /// This value is exactly what `alg` produces over `data`.
    pub open spec fn is_digest_of(&self, alg: ChecksumAlgorithm, data: Seq<u8>) -> bool {
        self.bytes() == strong_bytes_of(alg, data) && self.kind() == match alg {
            ChecksumAlgorithm::Md4 => 0int,
            ChecksumAlgorithm::Md5 => 1int,
            ChecksumAlgorithm::Blake2 => 2int,
            ChecksumAlgorithm::Xxh128 => 1int,
        }
    }

    /// The raw digest bytes.
    pub fn as_bytes(&self) -> (r: &Vec<u8>)
        ensures
            r@ == self.bytes(),
    {
        match self {
            StrongChecksum::Md4(bytes) => bytes,
            StrongChecksum::Md5(bytes) => bytes,
            StrongChecksum::Blake2(bytes) => bytes,
        }
    }

    /// Deep equality: same algorithm tag and same digest bytes.
    pub fn equals(&self, other: &StrongChecksum) -> (r: bool)
        ensures
            r == (self.kind() == other.kind() && self.bytes() == other.bytes()),
    {
        match (self, other) {
            (StrongChecksum::Md4(a), StrongChecksum::Md4(b)) => bytes_eq(
                a.as_slice(), b.as_slice()),
            (StrongChecksum::Md5(a), StrongChecksum::Md5(b)) => bytes_eq(
                a.as_slice(), b.as_slice()),
            (StrongChecksum::Blake2(a), StrongChecksum::Blake2(b)) => bytes_eq(
                a.as_slice(), b.as_slice()),
            _ => false,
        }
    }
}

impl PartialEq for StrongChecksum {
    fn eq(&self, other: &StrongChecksum) -> (r: bool) {
        self.equals(other)
    }
}

impl Eq for StrongChecksum {

}

impl vstd::std_specs::cmp::PartialEqSpecImpl for StrongChecksum {
    open spec fn obeys_eq_spec() -> bool {
        true
    }

    open spec fn eq_spec(&self, other: &StrongChecksum) -> bool {
        self.kind() == other.kind() && self.bytes() == other.bytes()
    }
}

/// The digest width each algorithm produces, in bytes.
pub open spec fn digest_len(alg: ChecksumAlgorithm) -> int {
    match alg {
        ChecksumAlgorithm::Md4 => 16,
        ChecksumAlgorithm::Md5 => 16,
        ChecksumAlgorithm::Blake2 => 64,
        ChecksumAlgorithm::Xxh128 => 16,
    }
}

/// Computes the strong digest of `data` under the chosen algorithm.
pub fn compute_strong_checksum(data: &[u8], algorithm: &ChecksumAlgorithm) -> (r: StrongChecksum)
    ensures
        r.is_digest_of(*algorithm, data@),
        r.bytes().len() == digest_len(*algorithm),
{
    match algorithm {
        ChecksumAlgorithm::Md4 => StrongChecksum::Md4(md4_sum(data)),
        ChecksumAlgorithm::Md5 => StrongChecksum::Md5(md5_sum(data)),
        ChecksumAlgorithm::Blake2 => StrongChecksum::Blake2(blake2b_sum(data)),
        ChecksumAlgorithm::Xxh128 => StrongChecksum::Md5(md5_sum(data)),
    }
}

} // verus!
