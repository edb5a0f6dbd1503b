//! SHA-256 over byte strings and the 32-byte chunks that the deposit
//! contract's Merkle scheme is built from.
use vstd::prelude::*;

verus! {

/// A 32-byte hash or Merkle chunk.
pub type Hash256 = [u8; 32];

/// The SHA-256 digest of `data`.
pub uninterp spec fn sha256_of(data: Seq<u8>) -> Seq<u8>;

/// Relies on `ethereum_hashing::hash_fixed`: the SHA-256 digest of its input.
#[verifier::external_body]
pub(crate) fn sha256(data: &[u8]) -> (r: Hash256)
    ensures
        r@ == sha256_of(data@),
{
    ethereum_hashing::hash_fixed(data)
}

/// `n` zero bytes.
pub open spec fn zeros(n: nat) -> Seq<u8> {
    Seq::new(n, |i: int| 0u8)
}

/// The hash of two chunks side by side: one inner node of a Merkle tree.
pub open spec fn pair_hash(a: Seq<u8>, b: Seq<u8>) -> Seq<u8> {
    sha256_of(a + b)
}

/// The little-endian encoding of `x`, zero-padded to 32 bytes.
pub open spec fn le_chunk(x: u64) -> Seq<u8> {
    seq![
        #[verifier::truncate] (x as u8),
        #[verifier::truncate] ((x >> 8u64) as u8),
        #[verifier::truncate] ((x >> 16u64) as u8),
        #[verifier::truncate] ((x >> 24u64) as u8),
        #[verifier::truncate] ((x >> 32u64) as u8),
        #[verifier::truncate] ((x >> 40u64) as u8),
        #[verifier::truncate] ((x >> 48u64) as u8),
        #[verifier::truncate] ((x >> 56u64) as u8),
    ] + zeros(24)
}

/// Appends the bytes `src[lo..hi]` to `dst`.
pub(crate) fn append_range(dst: &mut Vec<u8>, src: &[u8], lo: usize, hi: usize)
    requires
        lo <= hi <= src@.len(),
    ensures
        final(dst)@ == old(dst)@ + src@.subrange(lo as int, hi as int),
{
    let ghost start = dst@;
    let mut i: usize = lo;
    while i < hi
        invariant
            lo <= i <= hi <= src@.len(),
            dst@ == start + src@.subrange(lo as int, i as int),
        decreases hi - i,
    {
        dst.push(src[i]);
        i = i + 1;
        assert(dst@ =~= start + src@.subrange(lo as int, i as int));
    }
}

/// Appends the bytes of `src` to `dst`.
pub(crate) fn append_bytes(dst: &mut Vec<u8>, src: &[u8])
    ensures
        final(dst)@ == old(dst)@ + src@,
{
    append_range(dst, src, 0, src.len());
    assert(src@.subrange(0, src@.len() as int) =~= src@);
}

/// Appends `n` zero bytes to `dst`.
pub(crate) fn append_zeros(dst: &mut Vec<u8>, n: usize)
    ensures
        final(dst)@ == old(dst)@ + zeros(n as nat),
{
    let ghost start = dst@;
    let mut i: usize = 0;
    while i < n
        invariant
            i <= n,
            dst@ == start + zeros(i as nat),
        decreases n - i,
    {
        dst.push(0u8);
        i = i + 1;
        assert(dst@ =~= start + zeros(i as nat));
    }
}

/// The hash of `a` followed by `b`.
pub fn hash_pair(a: &Hash256, b: &Hash256) -> (r: Hash256)
    ensures
        r@ == pair_hash(a@, b@),
{
    let mut buf: Vec<u8> = Vec::new();
    append_bytes(&mut buf, a.as_slice());
    append_bytes(&mut buf, b.as_slice());
    sha256(buf.as_slice())
}

/// The chunk of 32 zero bytes.
pub fn zero_chunk() -> (r: Hash256)
    ensures
        r@ == zeros(32),
{
    let r: Hash256 = [0u8; 32];
    assert(r@ =~= zeros(32));
    r
}

/// The little-endian encoding of `x`, zero-padded to 32 bytes.
pub fn le_chunk_of(x: u64) -> (r: Hash256)
    ensures
        r@ == le_chunk(x),
{
    let r: Hash256 = [
        #[verifier::truncate] (x as u8),
        #[verifier::truncate] ((x >> 8u64) as u8),
        #[verifier::truncate] ((x >> 16u64) as u8),
        #[verifier::truncate] ((x >> 24u64) as u8),
        #[verifier::truncate] ((x >> 32u64) as u8),
        #[verifier::truncate] ((x >> 40u64) as u8),
        #[verifier::truncate] ((x >> 48u64) as u8),
        #[verifier::truncate] ((x >> 56u64) as u8),
        0, 0, 0, 0, 0, 0, 0, 0, 0, 0, 0, 0, 0, 0, 0, 0,
        0, 0, 0, 0, 0, 0, 0, 0,
    ];
    assert(r@ =~= le_chunk(x));
    r
}

} // verus!
