//! Seeds and their deterministic expansion.
//!
//! A seed is sixteen bytes. Everything pseudorandom in a key is derived from
//! seeds through one hash function, under different input shapes: a bare seed
//! is expanded into two child seeds with a control bit each, and a seed
//! followed by a tag byte yields a fresh seed with a group element, or the
//! verification material of a tree node.

use vstd::prelude::*;
use crate::group::Group;

verus! {

/// Number of bytes of a seed.
pub const SEED_SIZE: usize = 16;

/// Number of bytes of a hash value.
pub const HASH_SIZE: usize = 32;

/// Tag byte appended to a seed that is converted into a seed and a word.
pub const TAG_CONVERT: u8 = 1;

/// Tag byte appended to a seed that is hashed into verification material.
pub const TAG_PROOF: u8 = 2;

/// The BLAKE3 hash of a byte string.
pub uninterp spec fn digest(data: Seq<u8>) -> Seq<u8>;

/// Calls `blake3::hash` and hands out the 32 bytes of the hash. The contract
/// names the result: it is the function [`digest`] of the input bytes, and
/// nothing else is claimed of it.
#[verifier::external_body]
pub(crate) fn hash_bytes(data: &[u8]) -> (r: [u8; 32])
    ensures
        r@ == digest(data@),
{
    *blake3::hash(data).as_bytes()
}

/// Calls `rand::random` for sixteen bytes from the thread-local generator.
/// Nothing is claimed of the bytes.
#[verifier::external_body]
pub(crate) fn random_bytes() -> (r: [u8; 16]) {
    rand::random::<[u8; 16]>()
}

/// The `n` bytes of `d` that start at `off`.
pub open spec fn window(d: Seq<u8>, off: int, n: nat) -> Seq<u8> {
    Seq::new(n, |i: int| d[off + i])
}

/// Bytewise exclusive or of two byte strings of one length.
pub open spec fn xor_seq(a: Seq<u8>, b: Seq<u8>) -> Seq<u8> {
    Seq::new(a.len(), |i: int| a[i] ^ b[i])
}

/// The number that eight bytes spell, least significant byte first.
pub open spec fn le_u64(b: Seq<u8>) -> u64 {
    (b[0] as u64) | (b[1] as u64) << 8 | (b[2] as u64) << 16 | (b[3] as u64) << 24 | (b[4] as u64)
        << 32 | (b[5] as u64) << 40 | (b[6] as u64) << 48 | (b[7] as u64) << 56
}

/// Sixteen zero bytes.
pub open spec fn zero_seed() -> Seq<u8> {
    Seq::new(16, |i: int| 0u8)
}

/// The child seed that a seed expands to in direction `dir` (`true` is right).
pub open spec fn expand_seed(seed: Seq<u8>, dir: bool) -> Seq<u8> {
    window(digest(seed), if dir { 16 } else { 0 }, 16)
}

/// The control bit that a seed expands to in direction `dir`.
pub open spec fn expand_bit(seed: Seq<u8>, dir: bool) -> bool {
    digest(seed)[if dir { 16int } else { 0int }] & 1u8 == 1u8
}

/// The seed that a seed is converted to.
pub open spec fn convert_seed(seed: Seq<u8>) -> Seq<u8> {
    window(digest(seed.push(TAG_CONVERT)), 0, 16)
}

/// The 64-bit number that a seed is converted to, before it is reduced into
/// a group.
pub open spec fn convert_word(seed: Seq<u8>) -> u64 {
    le_u64(window(digest(seed.push(TAG_CONVERT)), 16, 8))
}

/// The verification material of a seed.
pub open spec fn proof_hash(seed: Seq<u8>) -> Seq<u8> {
    window(digest(seed.push(TAG_PROOF)), 0, 32)
}

/// The next value of a hash chain that stands at `pi` and takes in `item`.
pub open spec fn chain_hash(pi: Seq<u8>, item: Seq<u8>) -> Seq<u8> {
    window(digest(pi + item), 0, 32)
}

/// Exclusive or cancels: `a ^ (a ^ b)` is `b`, and `b ^ (a ^ b)` is `a`.
pub proof fn lemma_xor_cancel(a: Seq<u8>, b: Seq<u8>)
    requires
        a.len() == b.len(),
    ensures
        xor_seq(a, xor_seq(a, b)) == b,
        xor_seq(b, xor_seq(a, b)) == a,
{
    let ab = xor_seq(a, b);
    assert forall|i: int| 0 <= i < a.len() implies #[trigger] xor_seq(a, ab)[i] == b[i] by {
        let x = a[i];
        let y = b[i];
        assert(ab[i] == x ^ y);
        assert(x ^ (x ^ y) == y) by (bit_vector);
    }
    assert forall|i: int| 0 <= i < a.len() implies #[trigger] xor_seq(b, ab)[i] == a[i] by {
        let x = a[i];
        let y = b[i];
        assert(ab[i] == x ^ y);
        assert(y ^ (x ^ y) == x) by (bit_vector);
    }
    assert(xor_seq(a, xor_seq(a, b)) =~= b);
    assert(xor_seq(b, xor_seq(a, b)) =~= a);
}

/// Bytewise exclusive or of two arrays.
pub fn xor_bytes<const N: usize>(a: &[u8; N], b: &[u8; N]) -> (r: [u8; N])
    ensures
        r@ == xor_seq(a@, b@),
{
    let mut out: [u8; N] = *a;
    let mut i: usize = 0;
    while i < N
        invariant
            i <= N,
            out@.len() == N,
            forall|j: int| 0 <= j < i ==> out@[j] == a@[j] ^ b@[j],
            forall|j: int| i <= j < N ==> out@[j] == a@[j],
        decreases N - i,
    {
        out[i] = a[i] ^ b[i];
        i += 1;
    }
    assert(out@ =~= xor_seq(a@, b@));
    out
}

/// The sixteen bytes of `d` that start at `off`.
fn take_seed(d: &[u8; 32], off: usize) -> (r: [u8; 16])
    requires
        off <= 16,
    ensures
        r@ == window(d@, off as int, 16),
{
    let mut out: [u8; 16] = [0u8; 16];
    let mut i: usize = 0;
    while i < 16
        invariant
            i <= 16,
            off <= 16,
            forall|j: int| 0 <= j < i ==> out@[j] == d@[off + j],
        decreases 16 - i,
    {
        out[i] = d[off + i];
        i += 1;
    }
    assert(out@ =~= window(d@, off as int, 16));
    out
}

/// The hash of a seed followed by one tag byte.
fn hash_tagged(seed: &[u8; 16], tag: u8) -> (r: [u8; 32])
    ensures
        r@ == digest(seed@.push(tag)),
{
    let mut buf: [u8; 17] = [0u8; 17];
    let mut i: usize = 0;
    while i < 16
        invariant
            i <= 16,
            forall|j: int| 0 <= j < i ==> buf@[j] == seed@[j],
        decreases 16 - i,
    {
        buf[i] = seed[i];
        i += 1;
    }
    buf[16] = tag;
    assert(buf@ =~= seed@.push(tag));
    hash_bytes(buf.as_slice())
}

/// The hash of two hash values, one after the other.
pub fn hash_pair(a: &[u8; 32], b: &[u8; 32]) -> (r: [u8; 32])
    ensures
        r@ == chain_hash(a@, b@),
{
    let mut buf: [u8; 64] = [0u8; 64];
    let mut i: usize = 0;
    while i < 32
        invariant
            i <= 32,
            forall|j: int| 0 <= j < i ==> buf@[j] == a@[j],
            forall|j: int| 0 <= j < i ==> buf@[32 + j] == b@[j],
        decreases 32 - i,
    {
        buf[i] = a[i];
        buf[i + 32] = b[i];
        i += 1;
    }
    assert(buf@ =~= a@ + b@);
    let d = hash_bytes(buf.as_slice());
    assert(d@ =~= window(d@, 0, 32));
    d
}

/// A seed: sixteen bytes.
#[derive(Clone, Copy, Debug, PartialEq, Eq, Hash)]
pub struct PrgSeed {
    pub key: [u8; 16],
}

/// What a seed expands to: for each direction a child seed and a control bit.
/// The first component of each pair belongs to the left child.
#[derive(Clone, Copy, Debug)]
pub struct PrgOutput {
    pub bits: (bool, bool),
    pub seeds: (PrgSeed, PrgSeed),
}

impl View for PrgSeed {
    type V = Seq<u8>;

    open spec fn view(&self) -> Seq<u8> {
        self.key@
    }
}

impl PrgSeed {
    /// A seed drawn from the thread-local random generator.
    pub fn random() -> (r: PrgSeed) {
        PrgSeed { key: random_bytes() }
    }

    /// The seed of sixteen zero bytes.
    pub fn zero() -> (r: PrgSeed)
        ensures
            r@ == zero_seed(),
    {
        let r = PrgSeed { key: [0u8; 16] };
        assert(r@ =~= zero_seed());
        r
    }

    /// Bytewise exclusive or with another seed.
    pub fn xor(&self, other: &PrgSeed) -> (r: PrgSeed)
        ensures
            r@ == xor_seq(self@, other@),
    {
        PrgSeed { key: xor_bytes(&self.key, &other.key) }
    }

    /// Expands the seed into its two child seeds and their control bits.
    pub fn expand(&self) -> (out: PrgOutput)
        ensures
            out.seeds.0@ == expand_seed(self@, false),
            out.seeds.1@ == expand_seed(self@, true),
            out.bits.0 == expand_bit(self@, false),
            out.bits.1 == expand_bit(self@, true),
    {
        let d = hash_bytes(self.key.as_slice());
        let left = take_seed(&d, 0);
        let right = take_seed(&d, 16);
        PrgOutput {
            bits: (d[0] & 1u8 == 1u8, d[16] & 1u8 == 1u8),
            seeds: (PrgSeed { key: left }, PrgSeed { key: right }),
        }
    }

    /// Expands the seed in the directions asked for: both control bits, and
    /// the child seed of each direction that is asked for. The seed of a
    /// direction that is not asked for is the zero seed.
    pub fn expand_dir(&self, left: bool, right: bool) -> (out: PrgOutput)
        ensures
            out.seeds.0@ == if left {
                expand_seed(self@, false)
            } else {
                zero_seed()
            },
            out.seeds.1@ == if right {
                expand_seed(self@, true)
            } else {
                zero_seed()
            },
            out.bits.0 == expand_bit(self@, false),
            out.bits.1 == expand_bit(self@, true),
    {
        let d = hash_bytes(self.key.as_slice());
        let first = if left {
            PrgSeed { key: take_seed(&d, 0) }
        } else {
            PrgSeed::zero()
        };
        let second = if right {
            PrgSeed { key: take_seed(&d, 16) }
        } else {
            PrgSeed::zero()
        };
        PrgOutput { bits: (d[0] & 1u8 == 1u8, d[16] & 1u8 == 1u8), seeds: (first, second) }
    }

    /// Converts the seed into a fresh seed and an element of the group `T`.
    pub fn convert<T: Group>(&self) -> (out: (PrgSeed, T))
        ensures
            out.0@ == convert_seed(self@),
            out.1.wf(),
            out.1.val() == (convert_word(self@) as nat) % T::modulus(),
    {
        let d = hash_tagged(&self.key, TAG_CONVERT);
        let seed = take_seed(&d, 0);
        let raw: u64 = (d[16] as u64) | (d[17] as u64) << 8 | (d[18] as u64) << 16 | (d[19] as u64)
            << 24 | (d[20] as u64) << 32 | (d[21] as u64) << 40 | (d[22] as u64) << 48 | (
        d[23] as u64) << 56;
        (PrgSeed { key: seed }, T::from_u64(raw))
    }

    /// The verification material of the seed.
    pub fn node_proof(&self) -> (r: [u8; 32])
        ensures
            r@ == proof_hash(self@),
    {
        let d = hash_tagged(&self.key, TAG_PROOF);
        assert(d@ =~= window(d@, 0, 32));
        d
    }
}

} // verus!
