//! The two byte-level hash functions the kernel and the anchor use.
//!
//! Both are outside functions: their results are named here and every
//! digest the library computes is stated through these names.
use vstd::prelude::*;

verus! {

/// The SHA-256 digest of a byte string, as computed by the `sha2` crate.
pub uninterp spec fn sha256_spec(data: Seq<u8>) -> Seq<u8>;

/// The BLAKE3 digest (32-byte default output) of a byte string, as computed
/// by the `blake3` crate.
pub uninterp spec fn blake3_spec(data: Seq<u8>) -> Seq<u8>;

/// Calls `sha2::Sha256::digest` on the whole message. Its contract claims
/// only that the 32 returned bytes are the SHA-256 digest of `data`, which
/// is named rather than defined. Feeding several `update` calls and then
/// finalising gives the digest of their concatenation, so callers build the
/// concatenated message themselves.
#[verifier::external_body]
pub(crate) fn sha256(data: &[u8]) -> (r: [u8; 32])
    ensures
        r@ == sha256_spec(data@),
{
    <sha2::Sha256 as sha2::Digest>::digest(data).into()
}

/// Calls `blake3::hash` on the whole message. Its contract claims only that
/// the 32 returned bytes are the BLAKE3 digest of `data`, which is named
/// rather than defined; as with SHA-256, incremental `update` calls hash
/// the concatenation of their inputs.
#[verifier::external_body]
pub(crate) fn blake3(data: &[u8]) -> (r: [u8; 32])
    ensures
        r@ == blake3_spec(data@),
{
    *blake3::hash(data).as_bytes()
}

/// Appends every byte of `src` to `dst`.
pub fn extend_bytes(dst: &mut Vec<u8>, src: &[u8])
    ensures
        final(dst)@ == old(dst)@ + src@,
{
    let mut i: usize = 0;
    while i < src.len()
        invariant
            i <= src.len(),
            dst@ == old(dst)@ + src@.subrange(0, i as int),
        decreases src.len() - i,
    {
        dst.push(src[i]);
        i = i + 1;
        assert(src@.subrange(0, i as int) == src@.subrange(0, i - 1) .push(src@[i - 1]));
    }
    assert(src@.subrange(0, src.len() as int) == src@);
}

/// The little-endian bytes of a `u16`.
pub open spec fn u16_le(x: u16) -> Seq<u8> {
    seq![(x % 256) as u8, (x / 256) as u8]
}

/// The little-endian bytes of a `u64`.
pub open spec fn u64_le(x: u64) -> Seq<u8> {
    Seq::new(8, |i: int| ((x as int / pow256(i)) % 256) as u8)
}

/// 256 to the power `i`, for `0 <= i`.
pub open spec fn pow256(i: int) -> int
    decreases i,
{
    if i <= 0 {
        1
    } else {
        256 * pow256(i - 1)
    }
}

/// Appends the two little-endian bytes of `x`.
pub fn push_u16_le(dst: &mut Vec<u8>, x: u16)
    ensures
        final(dst)@ == old(dst)@ + u16_le(x),
{
    dst.push((x % 256) as u8);
    dst.push((x / 256) as u8);
    assert(dst@ == old(dst)@ + u16_le(x));
}

/// Appends the eight little-endian bytes of `x`.
pub fn push_u64_le(dst: &mut Vec<u8>, x: u64)
    ensures
        final(dst)@ == old(dst)@ + u64_le(x),
{
    let mut i: usize = 0;
    let mut rest: u64 = x;
    while i < 8
        invariant
            i <= 8,
            rest as int == x as int / pow256(i as int),
            dst@ == old(dst)@ + u64_le(x).subrange(0, i as int),
        decreases 8 - i,
    {
        proof {
            assert(pow256(i + 1) == 256 * pow256(i as int));
            assert(pow256(i as int) > 0) by {
                lemma_pow256_pos(i as int);
            }
            vstd::arithmetic::div_mod::lemma_div_denominator(x as int, pow256(i as int), 256);
            assert(pow256(i as int) * 256 == 256 * pow256(i as int));
        }
        dst.push((rest % 256) as u8);
        rest = rest / 256;
        i = i + 1;
        assert(u64_le(x).subrange(0, i as int) == u64_le(x).subrange(0, i - 1).push(u64_le(x)[i - 1]));
    }
    assert(u64_le(x).subrange(0, 8) == u64_le(x));
}

pub proof fn lemma_pow256_pos(i: int)
    ensures
        pow256(i) > 0,
    decreases i,
{
    if i > 0 {
        lemma_pow256_pos(i - 1);
    }
}

} // verus!
