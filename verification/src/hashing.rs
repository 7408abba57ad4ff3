//! The chain's single hash function and the proof-of-work measures built on
//! it: leading-zero counting, key strength, identity hashing.

use vstd::prelude::*;
use crate::bytes::Bytes;

verus! {

/// The digest that the Blakeout hash function assigns to a byte string.  The
/// function is fixed, so the digest depends on the input alone.
pub uninterp spec fn hash_of(data: Seq<u8>) -> Seq<u8>;

/// Relies on `blakeout::Blakeout` (`update` on a fresh hasher, then
/// `result`): a deterministic 32-byte digest of the input.
#[verifier::external_body]
pub(crate) fn blakeout_digest(data: &[u8]) -> (r: Vec<u8>)
    ensures
        r@ == hash_of(data@),
        r@.len() == 32,
{
    let mut hasher = blakeout::Blakeout::new();
    hasher.update(data);
    hasher.result().to_vec()
}

/// Number of contiguous high-order zero bits of a byte string.
pub open spec fn leading_zero_bits(s: Seq<u8>) -> nat
    decreases s.len(),
{
    if s.len() == 0 {
        0
    } else if s[0] == 0 {
        8 + leading_zero_bits(s.subrange(1, s.len() as int))
    } else {
        vstd::std_specs::bits::u8_leading_zeros(s[0]) as nat
    }
}

pub proof fn lemma_leading_zero_bits_bound(s: Seq<u8>)
    ensures
        leading_zero_bits(s) <= 8 * s.len(),
    decreases s.len(),
{
    broadcast use vstd::std_specs::bits::axiom_u8_leading_zeros;

    if s.len() > 0 && s[0] == 0 {
        lemma_leading_zero_bits_bound(s.subrange(1, s.len() as int));
    }
}

/// Counts the leading zero bits of a byte string, the measure a hash is
/// held to against a difficulty; saturates at the largest 32-bit value.
pub fn hash_difficulty(data: &[u8]) -> (r: u32)
    ensures
        r as nat == if leading_zero_bits(data@) > u32::MAX {
            u32::MAX as nat
        } else {
            leading_zero_bits(data@)
        },
{
    broadcast use vstd::std_specs::bits::axiom_u8_leading_zeros;

    let n = data.len();
    let mut i: usize = 0;
    let mut count: u32 = 0;
    proof {
        assert(data@.subrange(0, n as int) =~= data@);
    }
    while i < n
        invariant
            i <= n,
            n == data@.len(),
            count == 8 * i || count == u32::MAX,
            count == u32::MAX ==> leading_zero_bits(data@) > u32::MAX,
            count != u32::MAX ==> leading_zero_bits(data@) == 8 * i + leading_zero_bits(
                data@.subrange(i as int, n as int),
            ),
        decreases n - i,
    {
        let ghost rest = data@.subrange(i as int, n as int);
        let b = data[i];
        assert(rest[0] == b);
        if count == u32::MAX {
            return u32::MAX;
        }
        if b != 0 {
            proof {
                lemma_leading_zero_bits_bound(rest);
            }
            let z = b.leading_zeros();
            if count > u32::MAX - z {
                // Unreachable for hashes of any realistic length; kept for
                // totality.
                return u32::MAX;
            }
            return count + z;
        }
        proof {
            assert(rest.subrange(1, rest.len() as int) =~= data@.subrange(i + 1, n as int));
        }
        if count > u32::MAX - 8 {
            count = u32::MAX;
            proof {
                lemma_leading_zero_bits_bound(data@.subrange(i + 1, n as int));
            }
        } else {
            count = count + 8;
        }
        i = i + 1;
    }
    proof {
        assert(data@.subrange(n as int, n as int) =~= Seq::<u8>::empty());
    }
    count
}

/// A public key is strong when the hash of the key itself meets the given
/// difficulty; minting such a key costs work.
pub open spec fn spec_key_strong(key: Seq<u8>, difficulty: u32) -> bool {
    leading_zero_bits(hash_of(key)) >= difficulty
}

pub fn check_public_key_strength(key: &Bytes, difficulty: u32) -> (r: bool)
    ensures
        r == spec_key_strong(key@, difficulty),
{
    let digest = blakeout_digest(key.as_slice());
    hash_difficulty(digest.as_slice()) >= difficulty
}

/// The identity that the chain stores in place of a plaintext name: the hash
/// of the name's UTF-8 bytes.
pub open spec fn identity_hash(name: Seq<char>) -> Seq<u8> {
    hash_of(vstd::utf8::encode_utf8(name))
}

pub fn hash_identity(name: &str) -> (r: Bytes)
    ensures
        r@ == identity_hash(name@),
        r@.len() == 32,
{
    let digest = blakeout_digest(name.as_bytes());
    Bytes::from_vec(digest)
}

/// Hashes an owned byte string; the content hash of a block is computed this
/// way from its byte image.
pub fn hash_bytes(data: &[u8]) -> (r: Bytes)
    ensures
        r@ == hash_of(data@),
        r@.len() == 32,
{
    Bytes::from_vec(blakeout_digest(data))
}

} // verus!
