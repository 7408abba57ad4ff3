//! Blocks and their byte images.  The image over which a block is hashed
//! and signed excludes the `hash` and `signature` fields; every component
//! that hashes or signs a block uses bit-identical bytes.

use vstd::prelude::*;
use crate::bytes::Bytes;
use crate::constants::CHAIN_VERSION;
use crate::hashing::{hash_of, hash_bytes, leading_zero_bits};
use crate::keys::{sig_valid, check_signature};
use crate::transaction::{Transaction, TransactionV, spec_encode_tx, wf_tx};

verus! {

use vstd::arithmetic::div_mod::{lemma_fundamental_div_mod, lemma_div_denominator};


/// One unit of the chain.  A block without a transaction is a locker
/// (signing) block; one with a transaction is a full block.
pub struct Block {
    pub index: u64,
    pub timestamp: i64,
    pub version: u32,
    pub difficulty: u32,
    pub random: u32,
    pub nonce: u64,
    pub prev_block_hash: Bytes,
    pub hash: Bytes,
    pub pub_key: Bytes,
    pub signature: Bytes,
    pub transaction: Option<Transaction>,
}

/// The mathematical value of a block.
#[verifier::ext_equal]
pub ghost struct BlockV {
    pub index: u64,
    pub timestamp: i64,
    pub version: u32,
    pub difficulty: u32,
    pub random: u32,
    pub nonce: u64,
    pub prev_block_hash: Seq<u8>,
    pub hash: Seq<u8>,
    pub pub_key: Seq<u8>,
    pub signature: Seq<u8>,
    pub transaction: Option<TransactionV>,
}

impl View for Block {
    type V = BlockV;

    open spec fn view(&self) -> BlockV {
        BlockV {
            index: self.index,
            timestamp: self.timestamp,
            version: self.version,
            difficulty: self.difficulty,
            random: self.random,
            nonce: self.nonce,
            prev_block_hash: self.prev_block_hash@,
            hash: self.hash@,
            pub_key: self.pub_key@,
            signature: self.signature@,
            transaction: match self.transaction {
                None => None,
                Some(t) => Some(t@),
            },
        }
    }
}

impl Clone for Block {
    fn clone(&self) -> (res: Self)
        ensures
            res@ == self@,
    {
        let res = Block {
            index: self.index,
            timestamp: self.timestamp,
            version: self.version,
            difficulty: self.difficulty,
            random: self.random,
            nonce: self.nonce,
            prev_block_hash: self.prev_block_hash.clone(),
            hash: self.hash.clone(),
            pub_key: self.pub_key.clone(),
            signature: self.signature.clone(),
            transaction: match &self.transaction {
                None => None,
                Some(t) => Some(t.clone()),
            },
        };
        proof {
            assert(res@ =~= self@);
        }
        res
    }
}

/// The eight bytes of an unsigned 64-bit number, little-endian.
pub open spec fn u64_le(x: u64) -> Seq<u8> {
    seq![
        (x % 256) as u8,
        ((x / 256) % 256) as u8,
        ((x / 65536) % 256) as u8,
        ((x / 16777216) % 256) as u8,
        ((x / 4294967296) % 256) as u8,
        ((x / 1099511627776) % 256) as u8,
        ((x / 281474976710656) % 256) as u8,
        ((x / 72057594037927936) % 256) as u8,
    ]
}

/// The four bytes of an unsigned 32-bit number, little-endian.
pub open spec fn u32_le(x: u32) -> Seq<u8> {
    seq![
        (x % 256) as u8,
        ((x / 256) % 256) as u8,
        ((x / 65536) % 256) as u8,
        ((x / 16777216) % 256) as u8,
    ]
}

/// A signed 64-bit number shifted into unsigned range; its bytes are the
/// little-endian bytes of the shifted value.
pub open spec fn bias_i64(x: i64) -> u64 {
    (x + 9223372036854775808) as u64
}

pub open spec fn i64_le(x: i64) -> Seq<u8> {
    u64_le(bias_i64(x))
}

/// A length-prefixed byte field: eight little-endian length bytes, then the
/// payload.
pub open spec fn lp(b: Seq<u8>) -> Seq<u8> {
    u64_le(b.len() as u64) + b
}

/// The canonical text of an optional transaction: empty for a locker
/// block.
pub open spec fn tx_text_of(t: Option<TransactionV>) -> Seq<char> {
    match t {
        None => Seq::<char>::empty(),
        Some(tv) => spec_encode_tx(tv),
    }
}

/// The byte image of a block over which it is hashed and signed: every
/// field except `hash` and `signature`, integers little-endian fixed-width,
/// byte fields length-prefixed, the transaction as UTF-8 text.
#[verifier::opaque]
pub open spec fn block_image(b: BlockV) -> Seq<u8> {
    u64_le(b.index) + i64_le(b.timestamp) + u32_le(b.version) + u32_le(b.difficulty) + u32_le(
        b.random,
    ) + u64_le(b.nonce) + lp(b.prev_block_hash) + lp(b.pub_key) + lp(
        vstd::utf8::encode_utf8(tx_text_of(b.transaction)),
    )
}

/// The content hash of a block: the hash of its byte image.
pub open spec fn content_hash_of(b: BlockV) -> Seq<u8> {
    hash_of(block_image(b))
}

/// Whether the stored hash is the content hash.
pub open spec fn hash_ok(b: BlockV) -> bool {
    b.hash == content_hash_of(b)
}

/// Whether the stored signature verifies over the byte image under the
/// block's public key.
pub open spec fn sig_ok(b: BlockV) -> bool {
    b.pub_key.len() == 32 && b.signature.len() == 64 && sig_valid(
        b.pub_key,
        block_image(b),
        b.signature,
    )
}

/// Whether the hash meets the block's own difficulty.
pub open spec fn pow_ok(b: BlockV) -> bool {
    leading_zero_bits(b.hash) >= b.difficulty
}

/// A genesis block: at height one, with no predecessor.
pub open spec fn spec_is_genesis(b: BlockV) -> bool {
    b.index == 1 && b.prev_block_hash.len() == 0
}

/// Appends the little-endian bytes of an unsigned 64-bit number.
pub fn push_u64_le(buf: &mut Vec<u8>, x: u64)
    ensures
        final(buf)@ == old(buf)@ + u64_le(x),
{
    buf.push((x % 256) as u8);
    buf.push(((x / 256) % 256) as u8);
    buf.push(((x / 65536) % 256) as u8);
    buf.push(((x / 16777216) % 256) as u8);
    buf.push(((x / 4294967296) % 256) as u8);
    buf.push(((x / 1099511627776) % 256) as u8);
    buf.push(((x / 281474976710656) % 256) as u8);
    buf.push(((x / 72057594037927936) % 256) as u8);
    assert(buf@ =~= old(buf)@ + u64_le(x));
}

/// Appends the little-endian bytes of an unsigned 32-bit number.
pub fn push_u32_le(buf: &mut Vec<u8>, x: u32)
    ensures
        final(buf)@ == old(buf)@ + u32_le(x),
{
    buf.push((x % 256) as u8);
    buf.push(((x / 256) % 256) as u8);
    buf.push(((x / 65536) % 256) as u8);
    buf.push(((x / 16777216) % 256) as u8);
    assert(buf@ =~= old(buf)@ + u32_le(x));
}

/// Appends the biased little-endian bytes of a signed 64-bit number.
pub fn push_i64_le(buf: &mut Vec<u8>, x: i64)
    ensures
        final(buf)@ == old(buf)@ + i64_le(x),
{
    let wide: i128 = (x as i128) + 9223372036854775808i128;
    assert(0 <= wide < 0x10000000000000000i128);
    let biased: u64 = wide as u64;
    assert(biased == bias_i64(x));
    push_u64_le(buf, biased);
}

/// Appends a length-prefixed byte field.
pub fn push_lp(buf: &mut Vec<u8>, field: &[u8])
    ensures
        final(buf)@ == old(buf)@ + lp(field@),
{
    push_u64_le(buf, field.len() as u64);
    buf.extend_from_slice(field);
    assert(buf@ =~= old(buf)@ + lp(field@));
}

impl Block {
    /// A fresh template: height and nonces zero, hash and signature empty,
    /// the current protocol version.
    pub fn new(
        transaction: Option<Transaction>,
        pub_key: Bytes,
        prev_block_hash: Bytes,
        difficulty: u32,
    ) -> (r: Block)
        ensures
            r@.index == 0,
            r@.timestamp == 0,
            r@.version == CHAIN_VERSION,
            r@.difficulty == difficulty,
            r@.random == 0,
            r@.nonce == 0,
            r@.prev_block_hash == prev_block_hash@,
            r@.hash == Seq::<u8>::empty(),
            r@.pub_key == pub_key@,
            r@.signature == Seq::<u8>::empty(),
            r@.transaction == match transaction {
                None => None::<TransactionV>,
                Some(t) => Some(t@),
            },
    {
        Block {
            index: 0,
            timestamp: 0,
            version: CHAIN_VERSION,
            difficulty,
            random: 0,
            nonce: 0,
            prev_block_hash,
            hash: Bytes::default(),
            pub_key,
            signature: Bytes::default(),
            transaction,
        }
    }

    /// Builds a block from every field, as read back from storage.
    pub fn from_all_params(
        index: u64,
        timestamp: i64,
        version: u32,
        difficulty: u32,
        random: u32,
        nonce: u64,
        prev_block_hash: Bytes,
        hash: Bytes,
        pub_key: Bytes,
        signature: Bytes,
        transaction: Option<Transaction>,
    ) -> (r: Block)
        ensures
            r@ == (BlockV {
                index,
                timestamp,
                version,
                difficulty,
                random,
                nonce,
                prev_block_hash: prev_block_hash@,
                hash: hash@,
                pub_key: pub_key@,
                signature: signature@,
                transaction: match transaction {
                    None => None::<TransactionV>,
                    Some(ref t) => Some(t@),
                },
            }),
    {
        let r = Block {
            index,
            timestamp,
            version,
            difficulty,
            random,
            nonce,
            prev_block_hash,
            hash,
            pub_key,
            signature,
            transaction,
        };
        proof {
            assert(r@ =~= (BlockV {
                index,
                timestamp,
                version,
                difficulty,
                random,
                nonce,
                prev_block_hash: r.prev_block_hash@,
                hash: r.hash@,
                pub_key: r.pub_key@,
                signature: r.signature@,
                transaction: r@.transaction,
            }));
        }
        r
    }

    pub fn is_genesis(&self) -> (r: bool)
        ensures
            r == spec_is_genesis(self@),
    {
        self.index == 1 && self.prev_block_hash.is_empty()
    }

    pub fn is_full(&self) -> (r: bool)
        ensures
            r == (self@.transaction is Some),
    {
        self.transaction.is_some()
    }

    /// The byte image over which the block is hashed and signed.
    pub fn as_bytes(&self) -> (r: Vec<u8>)
        ensures
            r@ == block_image(self@),
    {
        let mut buf: Vec<u8> = Vec::new();
        push_u64_le(&mut buf, self.index);
        push_i64_le(&mut buf, self.timestamp);
        push_u32_le(&mut buf, self.version);
        push_u32_le(&mut buf, self.difficulty);
        push_u32_le(&mut buf, self.random);
        push_u64_le(&mut buf, self.nonce);
        push_lp(&mut buf, self.prev_block_hash.as_slice());
        push_lp(&mut buf, self.pub_key.as_slice());
        let text = match &self.transaction {
            None => String::new(),
            Some(t) => t.to_text(),
        };
        proof {
            broadcast use vstd::string::is_ascii_spec_bytes;

            assert(text@ == tx_text_of(self@.transaction));
        }
        push_lp(&mut buf, text.as_str().as_bytes());
        proof {
            reveal(block_image);
            assert(buf@ =~= block_image(self@));
        }
        buf
    }

    /// The content hash of the block's current fields.
    pub fn content_hash(&self) -> (r: Bytes)
        ensures
            r@ == content_hash_of(self@),
            r@.len() == 32,
    {
        let image = self.as_bytes();
        hash_bytes(image.as_slice())
    }

    /// Whether the stored hash equals the content hash.
    pub fn check_hash(&self) -> (r: bool)
        ensures
            r == hash_ok(self@),
    {
        let computed = self.content_hash();
        computed == self.hash
    }

    /// Whether the stored signature verifies over the byte image.
    pub fn check_signature(&self) -> (r: bool)
        ensures
            r == sig_ok(self@),
    {
        let image = self.as_bytes();
        check_signature(&self.pub_key, image.as_slice(), &self.signature)
    }

    /// The full byte form of a block, hash and signature included; what a
    /// store or a peer carries.
    pub fn serialize(&self) -> (r: Vec<u8>)
        ensures
            r@ == spec_block_bytes(self@),
    {
        let mut buf: Vec<u8> = Vec::new();
        push_u64_le(&mut buf, self.index);
        push_i64_le(&mut buf, self.timestamp);
        push_u32_le(&mut buf, self.version);
        push_u32_le(&mut buf, self.difficulty);
        push_u32_le(&mut buf, self.random);
        push_u64_le(&mut buf, self.nonce);
        push_lp(&mut buf, self.prev_block_hash.as_slice());
        push_lp(&mut buf, self.hash.as_slice());
        push_lp(&mut buf, self.pub_key.as_slice());
        push_lp(&mut buf, self.signature.as_slice());
        let text = match &self.transaction {
            None => String::new(),
            Some(t) => t.to_text(),
        };
        proof {
            broadcast use vstd::string::is_ascii_spec_bytes;

            assert(text@ == tx_text_of(self@.transaction));
        }
        push_lp(&mut buf, text.as_str().as_bytes());
        proof {
            reveal(spec_block_bytes);
            assert(buf@ =~= spec_block_bytes(self@));
        }
        buf
    }

    /// Reads a block back from its full byte form; `None` where the bytes
    /// do not follow it.
    pub fn deserialize(bytes: &[u8]) -> (r: Option<Block>)
        ensures
            match r {
                Some(b) => spec_decode_block(bytes@) == Some(b@),
                None => spec_decode_block(bytes@) is None,
            },
    {
        proof {
            reveal(spec_decode_block);
        }
        let n = bytes.len();
        if n < 36 {
            return None;
        }
        let index = read_u64_le(bytes, 0);
        let raw_ts = read_u64_le(bytes, 8);
        let wide: i128 = (raw_ts as i128) - 9223372036854775808i128;
        let timestamp: i64 = wide as i64;
        assert(timestamp == unbias_i64(raw_ts));
        let version = read_u32_le(bytes, 16);
        let difficulty = read_u32_le(bytes, 20);
        let random = read_u32_le(bytes, 24);
        let nonce = read_u64_le(bytes, 28);
        let (prev, o1) = match read_lp_exec(bytes, 36) {
            Some(p) => p,
            None => {
                return None;
            },
        };
        let (hash, o2) = match read_lp_exec(bytes, o1) {
            Some(p) => p,
            None => {
                return None;
            },
        };
        let (pub_key, o3) = match read_lp_exec(bytes, o2) {
            Some(p) => p,
            None => {
                return None;
            },
        };
        let (signature, o4) = match read_lp_exec(bytes, o3) {
            Some(p) => p,
            None => {
                return None;
            },
        };
        let (txb, o5) = match read_lp_exec(bytes, o4) {
            Some(p) => p,
            None => {
                return None;
            },
        };
        if o5 != n {
            return None;
        }
        let transaction: Option<Transaction> = if txb.len() == 0 {
            None
        } else {
            let text = match string_from_utf8(txb) {
                Some(t) => t,
                None => {
                    return None;
                },
            };
            match crate::transaction::tx_from_text(text.as_str()) {
                Some(t) => Some(t),
                None => {
                    return None;
                },
            }
        };
        let b = Block {
            index,
            timestamp,
            version,
            difficulty,
            random,
            nonce,
            prev_block_hash: Bytes::from_vec(prev),
            hash: Bytes::from_vec(hash),
            pub_key: Bytes::from_vec(pub_key),
            signature: Bytes::from_vec(signature),
            transaction,
        };
        proof {
            reveal(spec_decode_block);
            assert(spec_decode_block(bytes@)->Some_0 =~= b@);
        }
        Some(b)
    }
}

/// The little-endian value of the eight bytes at the front of a byte
/// string.
pub open spec fn u64_from_le8(s: Seq<u8>) -> u64 {
    (s[0] + s[1] * 256 + s[2] * 65536 + s[3] * 16777216 + s[4] * 4294967296 + s[5]
        * 1099511627776 + s[6] * 281474976710656 + s[7] * 72057594037927936) as u64
}

/// The little-endian value of the four bytes at the front of a byte
/// string.
pub open spec fn u32_from_le4(s: Seq<u8>) -> u32 {
    (s[0] + s[1] * 256 + s[2] * 65536 + s[3] * 16777216) as u32
}

/// The signed value a biased unsigned 64-bit number stands for.
pub open spec fn unbias_i64(x: u64) -> i64 {
    (x - 9223372036854775808) as i64
}

pub proof fn lemma_u64_le_inverse(x: u64)
    ensures
        u64_from_le8(u64_le(x)) == x,
{
    let xi = x as int;
    let q1 = xi / 256;
    let q2 = xi / 65536;
    let q3 = xi / 16777216;
    let q4 = xi / 4294967296;
    let q5 = xi / 1099511627776;
    let q6 = xi / 281474976710656;
    let q7 = xi / 72057594037927936;
    lemma_div_denominator(xi, 256, 256);
    lemma_div_denominator(xi, 65536, 256);
    lemma_div_denominator(xi, 16777216, 256);
    lemma_div_denominator(xi, 4294967296, 256);
    lemma_div_denominator(xi, 1099511627776, 256);
    lemma_div_denominator(xi, 281474976710656, 256);
    lemma_fundamental_div_mod(xi, 256);
    lemma_fundamental_div_mod(q1, 256);
    lemma_fundamental_div_mod(q2, 256);
    lemma_fundamental_div_mod(q3, 256);
    lemma_fundamental_div_mod(q4, 256);
    lemma_fundamental_div_mod(q5, 256);
    lemma_fundamental_div_mod(q6, 256);
    lemma_fundamental_div_mod(xi, 72057594037927936);
    assert(q7 < 256);
    assert(q7 % 256 == q7) by {
        lemma_fundamental_div_mod(q7, 256);
        assert(0 <= q7 % 256 < 256);
        assert(q7 / 256 == 0) by {
            lemma_div_denominator(xi, 72057594037927936, 256);
            assert(xi / 18446744073709551616 == 0) by {
                lemma_fundamental_div_mod(xi, 18446744073709551616);
                assert(0 <= xi % 18446744073709551616 < 18446744073709551616);
            }
        }
    }
    assert(xi == xi % 256 + 256 * (q1 % 256) + 65536 * (q2 % 256) + 16777216 * (q3 % 256)
        + 4294967296 * (q4 % 256) + 1099511627776 * (q5 % 256) + 281474976710656 * (q6 % 256)
        + 72057594037927936 * q7);
}

pub proof fn lemma_u32_le_inverse(x: u32)
    ensures
        u32_from_le4(u32_le(x)) == x,
{
    let xi = x as int;
    let q1 = xi / 256;
    let q2 = xi / 65536;
    let q3 = xi / 16777216;
    lemma_div_denominator(xi, 256, 256);
    lemma_div_denominator(xi, 65536, 256);
    lemma_fundamental_div_mod(xi, 256);
    lemma_fundamental_div_mod(q1, 256);
    lemma_fundamental_div_mod(q2, 256);
    lemma_fundamental_div_mod(xi, 16777216);
    assert(q3 < 256);
    assert(q3 % 256 == q3) by {
        lemma_fundamental_div_mod(q3, 256);
        assert(0 <= q3 % 256 < 256);
        assert(q3 / 256 == 0) by {
            lemma_div_denominator(xi, 16777216, 256);
            assert(xi / 4294967296 == 0) by {
                lemma_fundamental_div_mod(xi, 4294967296);
                assert(0 <= xi % 4294967296 < 4294967296);
            }
        }
    }
    assert(xi == xi % 256 + 256 * (q1 % 256) + 65536 * (q2 % 256) + 16777216 * q3);
}

/// A length-prefixed field read at an offset: the payload and the offset
/// just after it.
pub open spec fn read_lp(s: Seq<u8>, off: int) -> Option<(Seq<u8>, int)> {
    if off < 0 || off + 8 > s.len() {
        None
    } else {
        let l = u64_from_le8(s.subrange(off, off + 8)) as int;
        if off + 8 + l > s.len() {
            None
        } else {
            Some((s.subrange(off + 8, off + 8 + l), off + 8 + l))
        }
    }
}

/// The full byte form of a block: the image fields with the hash and the
/// signature added, each byte field length-prefixed.
#[verifier::opaque]
pub open spec fn spec_block_bytes(b: BlockV) -> Seq<u8> {
    u64_le(b.index) + i64_le(b.timestamp) + u32_le(b.version) + u32_le(b.difficulty) + u32_le(
        b.random,
    ) + u64_le(b.nonce) + lp(b.prev_block_hash) + lp(b.hash) + lp(b.pub_key) + lp(b.signature)
        + lp(vstd::utf8::encode_utf8(tx_text_of(b.transaction)))
}

/// Reading of the full byte form back into a block value; `None` where the
/// bytes do not follow it.
#[verifier::opaque]
pub open spec fn spec_decode_block(s: Seq<u8>) -> Option<BlockV> {
    if s.len() < 36 {
        None
    } else {
        let index = u64_from_le8(s.subrange(0, 8));
        let timestamp = unbias_i64(u64_from_le8(s.subrange(8, 16)));
        let version = u32_from_le4(s.subrange(16, 20));
        let difficulty = u32_from_le4(s.subrange(20, 24));
        let random = u32_from_le4(s.subrange(24, 28));
        let nonce = u64_from_le8(s.subrange(28, 36));
        match read_lp(s, 36) {
            None => None,
            Some((prev, o1)) => match read_lp(s, o1) {
                None => None,
                Some((hash, o2)) => match read_lp(s, o2) {
                    None => None,
                    Some((pub_key, o3)) => match read_lp(s, o3) {
                        None => None,
                        Some((signature, o4)) => match read_lp(s, o4) {
                            None => None,
                            Some((txb, o5)) => {
                                if o5 != s.len() {
                                    None
                                } else if txb.len() == 0 {
                                    Some(
                                        BlockV {
                                            index,
                                            timestamp,
                                            version,
                                            difficulty,
                                            random,
                                            nonce,
                                            prev_block_hash: prev,
                                            hash,
                                            pub_key,
                                            signature,
                                            transaction: None,
                                        },
                                    )
                                } else if !vstd::utf8::valid_utf8(txb) {
                                    None
                                } else {
                                    match crate::transaction::spec_decode_tx(
                                        vstd::utf8::decode_utf8(txb),
                                    ) {
                                        None => None,
                                        Some(t) => Some(
                                            BlockV {
                                                index,
                                                timestamp,
                                                version,
                                                difficulty,
                                                random,
                                                nonce,
                                                prev_block_hash: prev,
                                                hash,
                                                pub_key,
                                                signature,
                                                transaction: Some(t),
                                            },
                                        ),
                                    }
                                }
                            },
                        },
                    },
                },
            },
        }
    }
}

/// A block the codec is asked to carry: its transaction, if any, is
/// well-formed, and its byte fields are of storable size.
pub open spec fn wf_block_codec(b: BlockV) -> bool {
    &&& match b.transaction {
        None => true,
        Some(t) => wf_tx(t),
    }
    &&& b.prev_block_hash.len() < 0x10000000000000000
    &&& b.hash.len() < 0x10000000000000000
    &&& b.pub_key.len() < 0x10000000000000000
    &&& b.signature.len() < 0x10000000000000000
    &&& vstd::utf8::encode_utf8(tx_text_of(b.transaction)).len() < 0x10000000000000000
}

proof fn lemma_encode_utf8_nonempty(chars: Seq<char>)
    requires
        chars.len() > 0,
    ensures
        vstd::utf8::encode_utf8(chars).len() > 0,
{
}

/// Two halves of a concatenation, recovered by position.
proof fn lemma_split(a: Seq<u8>, b: Seq<u8>)
    ensures
        (a + b).subrange(0, a.len() as int) == a,
        (a + b).subrange(a.len() as int, (a + b).len() as int) == b,
{
    assert((a + b).subrange(0, a.len() as int) =~= a);
    assert((a + b).subrange(a.len() as int, (a + b).len() as int) =~= b);
}

/// A subrange of a subrange, as one subrange of the whole.
proof fn lemma_sub_sub(s: Seq<u8>, a: int, b: int, i: int, j: int)
    requires
        0 <= a <= b <= s.len(),
        0 <= i <= j <= b - a,
    ensures
        s.subrange(a, b).subrange(i, j) == s.subrange(a + i, a + j),
{
    assert(s.subrange(a, b).subrange(i, j) =~= s.subrange(a + i, a + j));
}

/// The positions of the segments inside the full byte form.
#[verifier::rlimit(100)]
#[verifier::spinoff_prover]
proof fn lemma_block_bytes_segments(b: BlockV)
    requires
        wf_block_codec(b),
    ensures
        ({
            let s = spec_block_bytes(b);
            let txb = vstd::utf8::encode_utf8(tx_text_of(b.transaction));
            let n7 = 44 + b.prev_block_hash.len() as int;
            let n8 = n7 + 8 + b.hash.len() as int;
            let n9 = n8 + 8 + b.pub_key.len() as int;
            let n10 = n9 + 8 + b.signature.len() as int;
            let n11 = n10 + 8 + txb.len() as int;
            &&& s.len() == n11
            &&& s.subrange(0, 8) == u64_le(b.index)
            &&& s.subrange(8, 16) == i64_le(b.timestamp)
            &&& s.subrange(16, 20) == u32_le(b.version)
            &&& s.subrange(20, 24) == u32_le(b.difficulty)
            &&& s.subrange(24, 28) == u32_le(b.random)
            &&& s.subrange(28, 36) == u64_le(b.nonce)
            &&& s.subrange(36, n7) == lp(b.prev_block_hash)
            &&& s.subrange(n7, n8) == lp(b.hash)
            &&& s.subrange(n8, n9) == lp(b.pub_key)
            &&& s.subrange(n9, n10) == lp(b.signature)
            &&& s.subrange(n10, n11) == lp(txb)
        }),
{
    reveal(spec_block_bytes);
    let s = spec_block_bytes(b);
    let txb = vstd::utf8::encode_utf8(tx_text_of(b.transaction));
    let g1 = u64_le(b.index);
    let g2 = i64_le(b.timestamp);
    let g3 = u32_le(b.version);
    let g4 = u32_le(b.difficulty);
    let g5 = u32_le(b.random);
    let g6 = u64_le(b.nonce);
    let g7 = lp(b.prev_block_hash);
    let g8 = lp(b.hash);
    let g9 = lp(b.pub_key);
    let g10 = lp(b.signature);
    let g11 = lp(txb);
    let p1 = g1;
    let p2 = p1 + g2;
    let p3 = p2 + g3;
    let p4 = p3 + g4;
    let p5 = p4 + g5;
    let p6 = p5 + g6;
    let p7 = p6 + g7;
    let p8 = p7 + g8;
    let p9 = p8 + g9;
    let p10 = p9 + g10;
    let p11 = p10 + g11;
    assert(s == p11);
    let n6: int = 36;
    let n7 = n6 + 8 + b.prev_block_hash.len() as int;
    let n8 = n7 + 8 + b.hash.len() as int;
    let n9 = n8 + 8 + b.pub_key.len() as int;
    let n10 = n9 + 8 + b.signature.len() as int;
    let n11 = n10 + 8 + txb.len() as int;
    assert(s.len() == n11);
    lemma_split(p10, g11);
    assert(s.subrange(0, n10) == p10);
    assert(s.subrange(n10, n11) == g11);
    lemma_split(p9, g10);
    lemma_sub_sub(s, 0, n10, 0, n9);
    lemma_sub_sub(s, 0, n10, n9, n10);
    assert(s.subrange(0, n9) == p9);
    assert(s.subrange(n9, n10) == g10);
    lemma_split(p8, g9);
    lemma_sub_sub(s, 0, n9, 0, n8);
    lemma_sub_sub(s, 0, n9, n8, n9);
    assert(s.subrange(0, n8) == p8);
    assert(s.subrange(n8, n9) == g9);
    lemma_split(p7, g8);
    lemma_sub_sub(s, 0, n8, 0, n7);
    lemma_sub_sub(s, 0, n8, n7, n8);
    assert(s.subrange(0, n7) == p7);
    assert(s.subrange(n7, n8) == g8);
    lemma_split(p6, g7);
    lemma_sub_sub(s, 0, n7, 0, n6);
    lemma_sub_sub(s, 0, n7, n6, n7);
    assert(s.subrange(0, n6) == p6);
    assert(s.subrange(n6, n7) == g7);
    lemma_split(p5, g6);
    lemma_sub_sub(s, 0, 36, 0, 28);
    lemma_sub_sub(s, 0, 36, 28, 36);
    assert(s.subrange(0, 28) == p5);
    assert(s.subrange(28, 36) == g6);
    lemma_split(p4, g5);
    lemma_sub_sub(s, 0, 28, 0, 24);
    lemma_sub_sub(s, 0, 28, 24, 28);
    assert(s.subrange(0, 24) == p4);
    assert(s.subrange(24, 28) == g5);
    lemma_split(p3, g4);
    lemma_sub_sub(s, 0, 24, 0, 20);
    lemma_sub_sub(s, 0, 24, 20, 24);
    assert(s.subrange(0, 20) == p3);
    assert(s.subrange(20, 24) == g4);
    lemma_split(p2, g3);
    lemma_sub_sub(s, 0, 20, 0, 16);
    lemma_sub_sub(s, 0, 20, 16, 20);
    assert(s.subrange(0, 16) == p2);
    assert(s.subrange(16, 20) == g3);
    lemma_split(p1, g2);
    lemma_sub_sub(s, 0, 16, 0, 8);
    lemma_sub_sub(s, 0, 16, 8, 16);
    assert(s.subrange(0, 8) == g1);
    assert(s.subrange(8, 16) == g2);
}

/// The length-prefixed fields of the full byte form read back to the
/// block's fields.
#[verifier::rlimit(100)]
#[verifier::spinoff_prover]
proof fn lemma_block_bytes_reads(b: BlockV)
    requires
        wf_block_codec(b),
    ensures
        ({
            let s = spec_block_bytes(b);
            let txb = vstd::utf8::encode_utf8(tx_text_of(b.transaction));
            let n7 = 44 + b.prev_block_hash.len() as int;
            let n8 = n7 + 8 + b.hash.len() as int;
            let n9 = n8 + 8 + b.pub_key.len() as int;
            let n10 = n9 + 8 + b.signature.len() as int;
            let n11 = n10 + 8 + txb.len() as int;
            &&& s.len() == n11
            &&& u64_from_le8(s.subrange(0, 8)) == b.index
            &&& unbias_i64(u64_from_le8(s.subrange(8, 16))) == b.timestamp
            &&& u32_from_le4(s.subrange(16, 20)) == b.version
            &&& u32_from_le4(s.subrange(20, 24)) == b.difficulty
            &&& u32_from_le4(s.subrange(24, 28)) == b.random
            &&& u64_from_le8(s.subrange(28, 36)) == b.nonce
            &&& read_lp(s, 36) == Some((b.prev_block_hash, n7))
            &&& read_lp(s, n7) == Some((b.hash, n8))
            &&& read_lp(s, n8) == Some((b.pub_key, n9))
            &&& read_lp(s, n9) == Some((b.signature, n10))
            &&& read_lp(s, n10) == Some((txb, n11))
        }),
{
    let s = spec_block_bytes(b);
    let txb = vstd::utf8::encode_utf8(tx_text_of(b.transaction));
    let l1 = b.prev_block_hash.len() as int;
    let l2 = b.hash.len() as int;
    let l3 = b.pub_key.len() as int;
    let l4 = b.signature.len() as int;
    let l5 = txb.len() as int;
    let n6: int = 36;
    let n7 = n6 + 8 + l1;
    let n8 = n7 + 8 + l2;
    let n9 = n8 + 8 + l3;
    let n10 = n9 + 8 + l4;
    let n11 = n10 + 8 + l5;
    lemma_block_bytes_segments(b);
    lemma_u64_le_inverse(b.index);
    lemma_u64_le_inverse(bias_i64(b.timestamp));
    lemma_u64_le_inverse(b.nonce);
    lemma_u32_le_inverse(b.version);
    lemma_u32_le_inverse(b.difficulty);
    lemma_u32_le_inverse(b.random);
    assert(unbias_i64(bias_i64(b.timestamp)) == b.timestamp);
    lemma_u64_le_inverse(l1 as u64);
    lemma_u64_le_inverse(l2 as u64);
    lemma_u64_le_inverse(l3 as u64);
    lemma_u64_le_inverse(l4 as u64);
    lemma_u64_le_inverse(l5 as u64);
    lemma_split(u64_le(l1 as u64), b.prev_block_hash);
    lemma_sub_sub(s, n6, n7, 0, 8);
    lemma_sub_sub(s, n6, n7, 8, 8 + l1);
    assert(s.subrange(n6, n6 + 8) == u64_le(l1 as u64));
    assert(s.subrange(n6 + 8, n7) == b.prev_block_hash);
    assert(read_lp(s, n6) == Some((b.prev_block_hash, n7)));
    lemma_split(u64_le(l2 as u64), b.hash);
    lemma_sub_sub(s, n7, n8, 0, 8);
    lemma_sub_sub(s, n7, n8, 8, 8 + l2);
    assert(s.subrange(n7, n7 + 8) == u64_le(l2 as u64));
    assert(s.subrange(n7 + 8, n8) == b.hash);
    assert(read_lp(s, n7) == Some((b.hash, n8)));
    lemma_split(u64_le(l3 as u64), b.pub_key);
    lemma_sub_sub(s, n8, n9, 0, 8);
    lemma_sub_sub(s, n8, n9, 8, 8 + l3);
    assert(s.subrange(n8, n8 + 8) == u64_le(l3 as u64));
    assert(s.subrange(n8 + 8, n9) == b.pub_key);
    assert(read_lp(s, n8) == Some((b.pub_key, n9)));
    lemma_split(u64_le(l4 as u64), b.signature);
    lemma_sub_sub(s, n9, n10, 0, 8);
    lemma_sub_sub(s, n9, n10, 8, 8 + l4);
    assert(s.subrange(n9, n9 + 8) == u64_le(l4 as u64));
    assert(s.subrange(n9 + 8, n10) == b.signature);
    assert(read_lp(s, n9) == Some((b.signature, n10)));
    lemma_split(u64_le(l5 as u64), txb);
    lemma_sub_sub(s, n10, n11, 0, 8);
    lemma_sub_sub(s, n10, n11, 8, 8 + l5);
    assert(s.subrange(n10, n10 + 8) == u64_le(l5 as u64));
    assert(s.subrange(n10 + 8, n11) == txb);
    assert(read_lp(s, n10) == Some((txb, n11)));
}

/// Reading the full byte form of a well-formed block back gives the block;
/// in particular the content hash survives the trip through storage.
#[verifier::rlimit(100)]
#[verifier::spinoff_prover]
pub proof fn lemma_block_round_trip(b: BlockV)
    requires
        wf_block_codec(b),
    ensures
        spec_decode_block(spec_block_bytes(b)) == Some(b),
        content_hash_of(spec_decode_block(spec_block_bytes(b))->Some_0) == content_hash_of(b),
{
    broadcast use vstd::utf8::encode_utf8_valid_utf8;
    broadcast use vstd::utf8::encode_utf8_decode_utf8;

    reveal(spec_decode_block);
    let s = spec_block_bytes(b);
    let txb = vstd::utf8::encode_utf8(tx_text_of(b.transaction));
    lemma_block_bytes_reads(b);
    match b.transaction {
        None => {
            assert(tx_text_of(b.transaction) =~= Seq::<char>::empty());
            assert(txb.len() == 0);
            assert(spec_decode_block(s)->Some_0 =~= b);
        },
        Some(t) => {
            reveal_strlit("class=");
            assert(tx_text_of(b.transaction).len() >= 6) by {
                assert(spec_encode_tx(t).len() >= "class="@.len());
            }
            lemma_encode_utf8_nonempty(tx_text_of(b.transaction));
            assert(vstd::utf8::decode_utf8(txb) == tx_text_of(b.transaction));
            crate::transaction::lemma_tx_round_trip(t);
            assert(spec_decode_block(s)->Some_0 =~= b);
        },
    }
}

/// Reads eight little-endian bytes at an offset.
fn read_u64_le(s: &[u8], off: usize) -> (r: u64)
    requires
        off + 8 <= s@.len(),
    ensures
        r == u64_from_le8(s@.subrange(off as int, off as int + 8)),
{
    let n = s.len();
    let b0 = *vstd::slice::slice_index_get(s, off) as u64;
    let b1 = *vstd::slice::slice_index_get(s, off + 1) as u64;
    let b2 = *vstd::slice::slice_index_get(s, off + 2) as u64;
    let b3 = *vstd::slice::slice_index_get(s, off + 3) as u64;
    let b4 = *vstd::slice::slice_index_get(s, off + 4) as u64;
    let b5 = *vstd::slice::slice_index_get(s, off + 5) as u64;
    let b6 = *vstd::slice::slice_index_get(s, off + 6) as u64;
    let b7 = *vstd::slice::slice_index_get(s, off + 7) as u64;
    b0 + b1 * 256 + b2 * 65536 + b3 * 16777216 + b4 * 4294967296 + b5 * 1099511627776 + b6
        * 281474976710656 + b7 * 72057594037927936
}

/// Reads four little-endian bytes at an offset.
fn read_u32_le(s: &[u8], off: usize) -> (r: u32)
    requires
        off + 4 <= s@.len(),
    ensures
        r == u32_from_le4(s@.subrange(off as int, off as int + 4)),
{
    let n = s.len();
    let b0 = *vstd::slice::slice_index_get(s, off) as u32;
    let b1 = *vstd::slice::slice_index_get(s, off + 1) as u32;
    let b2 = *vstd::slice::slice_index_get(s, off + 2) as u32;
    let b3 = *vstd::slice::slice_index_get(s, off + 3) as u32;
    b0 + b1 * 256 + b2 * 65536 + b3 * 16777216
}

/// Reads a length-prefixed field at an offset: the payload and the offset
/// just after it.
fn read_lp_exec(s: &[u8], off: usize) -> (r: Option<(Vec<u8>, usize)>)
    requires
        off <= s@.len(),
    ensures
        match r {
            Some((v, end)) => read_lp(s@, off as int) == Some((v@, end as int)) && end
                <= s@.len(),
            None => read_lp(s@, off as int) is None,
        },
{
    let n = s.len();
    if n - off < 8 {
        return None;
    }
    let l = read_u64_le(s, off);
    if l > (n - off - 8) as u64 {
        return None;
    }
    let len = l as usize;
    let start = off + 8;
    let mut v: Vec<u8> = Vec::new();
    let mut k: usize = 0;
    while k < len
        invariant
            k <= len,
            start + len <= n,
            n == s@.len(),
            v@ == s@.subrange(start as int, start as int + k as int),
        decreases len - k,
    {
        v.push(*vstd::slice::slice_index_get(s, start + k));
        proof {
            assert(s@.subrange(start as int, start as int + k as int + 1) =~= s@.subrange(
                start as int,
                start as int + k as int,
            ).push(s@[start as int + k as int]));
        }
        k = k + 1;
    }
    proof {
        assert(s@.subrange(start as int, start as int) =~= Seq::<u8>::empty());
    }
    Some((v, start + len))
}

/// Relies on `String::from_utf8`: a string exactly when the bytes are
/// valid UTF-8, holding their decoding.
#[verifier::external_body]
fn string_from_utf8(v: Vec<u8>) -> (r: Option<String>)
    ensures
        r is Some <==> vstd::utf8::valid_utf8(v@),
        r is Some ==> r->Some_0@ == vstd::utf8::decode_utf8(v@),
{
    String::from_utf8(v).ok()
}

} // verus!
