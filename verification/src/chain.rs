//! The chain store and the acceptance rules: block lookup, the derived
//! domain and zone registries, the validator `check_new_block`, and the
//! locker committee selection.

use vstd::prelude::*;
use crate::bytes::{Bytes, seq_is_zero, tail_u64_of};
use crate::constants::{ZONE_DIFFICULTY, LOCKER_DIFFICULTY, KEYSTORE_DIFFICULTY,
    LOCKER_BLOCK_START, LOCKER_BLOCK_SIGNS, LOCKER_BLOCK_LOCKERS, LOCKER_BLOCK_INTERVAL,
    LOCKER_WALK_BOUND, NEW_DOMAINS_INTERVAL, DOMAIN_LIFETIME, MAX_CLOCK_SKEW, MAX_TIMESTAMP};
use crate::hashing::{hash_of, leading_zero_bits, spec_key_strong, check_public_key_strength,
    identity_hash, hash_identity};
use crate::block::{Block, BlockV, hash_ok, sig_ok, pow_ok, spec_is_genesis};
use crate::transaction::{Transaction, TransactionV, ZoneData, zone_meta_of, domain_zone_of,
    parse_zone_meta, parse_domain_zone};

verus! {

/// The verdict of the validator on a candidate block.
#[derive(Clone, Copy, Debug, PartialEq, Eq, Structural)]
pub enum BlockQuality {
    Good,
    Twin,
    Future,
    Bad,
    Fork,
}

/// What stands in the way of mining a domain, if anything.
#[derive(Clone, Copy, Debug, PartialEq, Eq, Structural)]
pub enum MineResult {
    Fine,
    WrongName,
    WrongZone,
    NotOwned,
    Cooldown { time: i64 },
}

/// The chain: the configured origin, the accepted blocks in order, and the
/// highest height heard of from peers.
pub struct Chain {
    origin: Bytes,
    blocks: Vec<Block>,
    max_height: u64,
}

/// The mathematical value of the chain.
#[verifier::ext_equal]
pub ghost struct ChainV {
    pub origin: Seq<u8>,
    pub blocks: Seq<BlockV>,
    pub max_height: u64,
}

impl View for Chain {
    type V = ChainV;

    closed spec fn view(&self) -> ChainV {
        ChainV {
            origin: self.origin@,
            blocks: Seq::new(self.blocks@.len(), |i: int| self.blocks@[i]@),
            max_height: self.max_height,
        }
    }
}

pub open spec fn is_full(b: BlockV) -> bool {
    b.transaction is Some
}

/// The block stored at a 1-based height.
pub open spec fn spec_get_block(bs: Seq<BlockV>, index: u64) -> Option<BlockV> {
    if 1 <= index && index <= bs.len() {
        Some(bs[index - 1])
    } else {
        None
    }
}

/// The height of the chain: the index of its last block.
pub open spec fn spec_height(bs: Seq<BlockV>) -> u64 {
    if bs.len() == 0 {
        0
    } else {
        bs.last().index
    }
}

/// The latest block carrying a transaction.
pub open spec fn spec_last_full(bs: Seq<BlockV>) -> Option<BlockV>
    decreases bs.len(),
{
    if bs.len() == 0 {
        None
    } else if is_full(bs.last()) {
        Some(bs.last())
    } else {
        spec_last_full(bs.drop_last())
    }
}

/// The latest block carrying a transaction and mined by the given key.
pub open spec fn spec_last_full_for_key(bs: Seq<BlockV>, key: Seq<u8>) -> Option<BlockV>
    decreases bs.len(),
{
    if bs.len() == 0 {
        None
    } else if is_full(bs.last()) && bs.last().pub_key == key {
        Some(bs.last())
    } else {
        spec_last_full_for_key(bs.drop_last(), key)
    }
}

pub open spec fn is_zone_class(t: TransactionV) -> bool {
    t.class == "zone"@
}

pub open spec fn is_domain_class(t: TransactionV) -> bool {
    t.class == "domain"@
}

/// Whether a block commits the given identity in the given registry.
pub open spec fn commits_id(b: BlockV, id: Seq<u8>, zone: bool) -> bool {
    match b.transaction {
        None => false,
        Some(t) => (if zone {
            is_zone_class(t)
        } else {
            is_domain_class(t)
        }) && t.identity == id,
    }
}

/// The latest block committing the given identity in the given registry.
pub open spec fn spec_latest_commit(bs: Seq<BlockV>, id: Seq<u8>, zone: bool) -> Option<BlockV>
    decreases bs.len(),
{
    if bs.len() == 0 {
        None
    } else if commits_id(bs.last(), id, zone) {
        Some(bs.last())
    } else {
        spec_latest_commit(bs.drop_last(), id, zone)
    }
}

/// The key that currently holds the given identity, if any.
pub open spec fn spec_latest_owner(bs: Seq<BlockV>, id: Seq<u8>, zone: bool) -> Option<Seq<u8>> {
    match spec_latest_commit(bs, id, zone) {
        None => None,
        Some(b) => Some(b.transaction->Some_0.pub_key),
    }
}

/// Whether the identity is free or already held by the given key.
pub open spec fn spec_id_available(bs: Seq<BlockV>, id: Seq<u8>, key: Seq<u8>, zone: bool) -> bool {
    match spec_latest_owner(bs, id, zone) {
        None => true,
        Some(k) => k == key,
    }
}

/// Whether any block commits the identity in the given registry.
pub open spec fn spec_id_in_chain(bs: Seq<BlockV>, id: Seq<u8>, zone: bool) -> bool {
    spec_latest_commit(bs, id, zone) is Some
}

/// Whether a block is a zone commitment whose payload parses to zone
/// metadata with the given name.
pub open spec fn zone_row_named(b: BlockV, name: Seq<char>) -> bool {
    match b.transaction {
        None => false,
        Some(t) => is_zone_class(t) && match zone_meta_of(t.data) {
            None => false,
            Some(meta) => meta.0 == name,
        },
    }
}

/// The mining difficulty of a zone: the difficulty recorded by the latest
/// zone commitment of that name, or the maximum (unmineable) where the zone
/// is unknown.
pub open spec fn spec_zone_difficulty(bs: Seq<BlockV>, name: Seq<char>) -> u32
    decreases bs.len(),
{
    if bs.len() == 0 {
        u32::MAX
    } else if zone_row_named(bs.last(), name) {
        zone_meta_of(bs.last().transaction->Some_0.data)->Some_0.1
    } else {
        spec_zone_difficulty(bs.drop_last(), name)
    }
}

/// The difficulty a transaction demands of its block: fixed for zones, the
/// parent zone's recorded difficulty for domains, unmineable for anything
/// else.
pub open spec fn spec_tx_difficulty(bs: Seq<BlockV>, t: TransactionV) -> u32 {
    if is_domain_class(t) {
        match domain_zone_of(t.data) {
            None => u32::MAX,
            Some(zone) => spec_zone_difficulty(bs, zone),
        }
    } else if is_zone_class(t) {
        ZONE_DIFFICULTY
    } else {
        u32::MAX
    }
}

/// The difficulty required of a candidate block.
pub open spec fn spec_required_difficulty(bs: Seq<BlockV>, b: BlockV) -> u32 {
    match b.transaction {
        None => if b.index == 1 {
            ZONE_DIFFICULTY
        } else {
            LOCKER_DIFFICULTY
        },
        Some(t) => spec_tx_difficulty(bs, t),
    }
}

/// The position the committee walk probes at the given step: a
/// pseudo-random index in the window below the full block, seeded by the
/// tail of its hash.
pub open spec fn walk_index(f: BlockV, count: u64) -> int {
    let window = if f.index <= LOCKER_BLOCK_INTERVAL {
        f.index - 1
    } else {
        LOCKER_BLOCK_INTERVAL - 1
    };
    let start = f.index - window;
    start + ((tail_u64_of(f.hash) * count) as int % (LOCKER_BLOCK_INTERVAL as int))
}

/// The committee walk: probes positions until the committee is complete or
/// the walk bound is spent, collecting distinct keys other than the full
/// block's own miner.
pub open spec fn spec_signers_rec(
    bs: Seq<BlockV>,
    f: BlockV,
    count: u64,
    acc: Seq<Seq<u8>>,
) -> Seq<Seq<u8>>
    decreases LOCKER_WALK_BOUND + 1 - count
        when count <= LOCKER_WALK_BOUND + 1
{
    if count > LOCKER_WALK_BOUND || acc.len() >= LOCKER_BLOCK_LOCKERS {
        acc
    } else {
        let idx = walk_index(f, count);
        let acc2 = if 1 <= idx && idx <= bs.len() {
            let b = bs[idx - 1];
            if b.pub_key != f.pub_key && !acc.contains(b.pub_key) {
                acc.push(b.pub_key)
            } else {
                acc
            }
        } else {
            acc
        };
        spec_signers_rec(bs, f, (count + 1) as u64, acc2)
    }
}

/// The committee of a full block: the keys entitled (and required) to sign
/// it, in the deterministic order the walk finds them.
pub open spec fn spec_signers(bs: Seq<BlockV>, f: BlockV) -> Seq<Seq<u8>> {
    if f.index == 0 {
        Seq::<Seq<u8>>::empty()
    } else {
        spec_signers_rec(bs, f, 1, Seq::<Seq<u8>>::empty())
    }
}

/// Whether a locker candidate may sign the full block: its key is in the
/// committee and has not signed above that full block yet.
pub open spec fn spec_check_for_signing(bs: Seq<BlockV>, b: BlockV, f: BlockV) -> bool {
    &&& spec_signers(bs, f).contains(b.pub_key)
    &&& forall|i: u64|
        f.index < i < b.index ==> match #[trigger] spec_get_block(bs, i) {
            Some(bl) => bl.pub_key != b.pub_key,
            None => true,
        }
}

/// The smallest height the next full block may claim: full blocks wait
/// until the previous full block is covered by its signatures.
pub open spec fn spec_next_allowed(c: ChainV) -> int {
    match spec_last_full(c.blocks) {
        None => spec_height(c.blocks) + 1,
        Some(f) => if f.index < LOCKER_BLOCK_START {
            spec_height(c.blocks) + 1
        } else {
            let h = spec_height(c.blocks) as int;
            let base = if f.index as int >= h {
                f.index as int
            } else {
                h
            };
            base + LOCKER_BLOCK_SIGNS
        },
    }
}

/// Positional well-formedness of the chain: blocks are stored at their
/// heights, each links to its predecessor, timestamps and length are within
/// machine bounds.
pub open spec fn chain_positioned(c: ChainV) -> bool {
    &&& c.blocks.len() <= 0x7FFFFFFFFFFFFFFF
    &&& forall|i: int| 0 <= i < c.blocks.len() ==> (#[trigger] c.blocks[i]).index == i + 1
    &&& c.blocks.len() > 0 ==> c.blocks[0].prev_block_hash.len() == 0
    &&& forall|i: int|
        1 <= i < c.blocks.len() ==> (#[trigger] c.blocks[i]).prev_block_hash == c.blocks[i
            - 1].hash
    &&& forall|i: int|
        0 <= i < c.blocks.len() ==> -(MAX_TIMESTAMP + MAX_CLOCK_SKEW) <= (
        #[trigger] c.blocks[i]).timestamp <= MAX_TIMESTAMP + MAX_CLOCK_SKEW
}

/// Cryptographic well-formedness of the chain: every block's hash is its
/// content hash and meets its difficulty, its signature verifies, and its
/// miner's key is strong.
pub open spec fn chain_secured(c: ChainV) -> bool {
    &&& forall|i: int| 0 <= i < c.blocks.len() ==> hash_ok(#[trigger] c.blocks[i])
    &&& forall|i: int| 0 <= i < c.blocks.len() ==> sig_ok(#[trigger] c.blocks[i])
    &&& forall|i: int| 0 <= i < c.blocks.len() ==> pow_ok(#[trigger] c.blocks[i])
    &&& forall|i: int|
        0 <= i < c.blocks.len() ==> spec_key_strong((#[trigger] c.blocks[i]).pub_key,
            KEYSTORE_DIFFICULTY,
        )
}

/// Full well-formedness.
pub open spec fn chain_wf(c: ChainV) -> bool {
    chain_positioned(c) && chain_secured(c)
}

/// Cryptographic validity of one block on its own: its hash is its content
/// hash and meets its difficulty, its signature verifies, its miner's key
/// is strong.
pub open spec fn block_secured(b: BlockV) -> bool {
    hash_ok(b) && sig_ok(b) && pow_ok(b) && spec_key_strong(b.pub_key, KEYSTORE_DIFFICULTY)
}

/// What add_block demands of a block: it extends the tip, linked to it,
/// with a timestamp and length within machine bounds.  Whether it is valid
/// is the validator's business: the caller classifies first.
pub open spec fn spec_extends(c: ChainV, b: BlockV) -> bool {
    &&& b.index == c.blocks.len() + 1
    &&& c.blocks.len() + 1 <= 0x7FFFFFFFFFFFFFFF
    &&& if c.blocks.len() == 0 {
        b.prev_block_hash.len() == 0
    } else {
        b.prev_block_hash == c.blocks.last().hash
    }
    &&& -(MAX_TIMESTAMP + MAX_CLOCK_SKEW) <= b.timestamp <= MAX_TIMESTAMP + MAX_CLOCK_SKEW
}

/// What replace_block demands: the new block stands at the given height
/// and the chain stays linked on both sides of it.
pub open spec fn spec_replace_pos(c: ChainV, index: u64, b: BlockV) -> bool {
    &&& b.index == index
    &&& 1 <= index && index <= c.blocks.len()
    &&& if index == 1 {
        b.prev_block_hash.len() == 0
    } else {
        b.prev_block_hash == c.blocks[index - 2].hash
    }
    &&& index < c.blocks.len() ==> c.blocks[index as int].prev_block_hash == b.hash
    &&& -(MAX_TIMESTAMP + MAX_CLOCK_SKEW) <= b.timestamp <= MAX_TIMESTAMP + MAX_CLOCK_SKEW
}

/// Appending a valid block to a secured chain keeps it secured.
proof fn lemma_push_keeps_secured(o: ChainV, c: ChainV, b: BlockV)
    requires
        chain_secured(o),
        block_secured(b),
        c.blocks == o.blocks.push(b),
    ensures
        chain_secured(c),
{
    assert forall|j: int| 0 <= j < c.blocks.len() implies hash_ok(#[trigger] c.blocks[j])
        && sig_ok(c.blocks[j]) && pow_ok(c.blocks[j]) && spec_key_strong(
        c.blocks[j].pub_key,
        KEYSTORE_DIFFICULTY,
    ) by {
        if j < o.blocks.len() {
            assert(c.blocks[j] == o.blocks[j]);
        } else {
            assert(c.blocks[j] == b);
        }
    }
}

/// Overwriting one block of a secured chain with a valid one keeps it
/// secured.
proof fn lemma_update_keeps_secured(o: ChainV, c: ChainV, index: u64, b: BlockV)
    requires
        chain_secured(o),
        block_secured(b),
        1 <= index <= o.blocks.len(),
        c.blocks == o.blocks.update(index - 1, b),
    ensures
        chain_secured(c),
{
    assert forall|j: int| 0 <= j < c.blocks.len() implies hash_ok(#[trigger] c.blocks[j])
        && sig_ok(c.blocks[j]) && pow_ok(c.blocks[j]) && spec_key_strong(
        c.blocks[j].pub_key,
        KEYSTORE_DIFFICULTY,
    ) by {
        if j != index - 1 {
            assert(c.blocks[j] == o.blocks[j]);
        } else {
            assert(c.blocks[j] == b);
        }
    }
}

/// Overwriting one block with a correctly linked one keeps the chain
/// positioned.
#[verifier::spinoff_prover]
proof fn lemma_update_keeps_positioned(o: ChainV, c: ChainV, index: u64, b: BlockV)
    requires
        chain_positioned(o),
        spec_replace_pos(o, index, b),
        c.blocks == o.blocks.update(index - 1, b),
    ensures
        chain_positioned(c),
{
    assert forall|j: int| 0 <= j < c.blocks.len() implies (#[trigger] c.blocks[j]).index == j
        + 1 by {
        if j != index - 1 {
            assert(c.blocks[j] == o.blocks[j]);
        }
    }
    assert forall|j: int|
        1 <= j < c.blocks.len() implies (#[trigger] c.blocks[j]).prev_block_hash == c.blocks[j
        - 1].hash by {
        if j != index - 1 && j - 1 != index - 1 {
            assert(c.blocks[j] == o.blocks[j]);
            assert(c.blocks[j - 1] == o.blocks[j - 1]);
        }
    }
    assert forall|j: int|
        0 <= j < c.blocks.len() implies -(MAX_TIMESTAMP + MAX_CLOCK_SKEW) <= (
    #[trigger] c.blocks[j]).timestamp <= MAX_TIMESTAMP + MAX_CLOCK_SKEW by {
        if j != index - 1 {
            assert(c.blocks[j] == o.blocks[j]);
        }
    }
}

impl Chain {
    /// A fresh chain with the configured origin and no blocks.
    pub fn new(origin: Bytes) -> (r: Chain)
        ensures
            r@.origin == origin@,
            r@.blocks == Seq::<BlockV>::empty(),
            r@.max_height == 0,
            chain_wf(r@),
    {
        let r = Chain { origin, blocks: Vec::new(), max_height: 0 };
        proof {
            assert(r@.blocks =~= Seq::<BlockV>::empty());
        }
        r
    }

    /// The height of the chain.
    pub fn height(&self) -> (r: u64)
        ensures
            r == spec_height(self@.blocks),
    {
        let n = self.blocks.len();
        if n == 0 {
            0
        } else {
            self.blocks[n - 1].index
        }
    }

    /// The block at a 1-based height, if present.
    pub fn get_block(&self, index: u64) -> (r: Option<Block>)
        ensures
            match r {
                Some(b) => spec_get_block(self@.blocks, index) == Some(b@),
                None => spec_get_block(self@.blocks, index) is None,
            },
    {
        if index >= 1 && index <= self.blocks.len() as u64 {
            let i = (index - 1) as usize;
            Some(self.blocks[i].clone())
        } else {
            None
        }
    }

    /// The last block, if any.
    pub fn last_block(&self) -> (r: Option<Block>)
        ensures
            match r {
                Some(b) => self@.blocks.len() > 0 && b@ == self@.blocks.last(),
                None => self@.blocks.len() == 0,
            },
    {
        let n = self.blocks.len();
        if n == 0 {
            None
        } else {
            Some(self.blocks[n - 1].clone())
        }
    }

    /// The hash of the last block, or empty for the empty chain.
    pub fn last_hash(&self) -> (r: Bytes)
        ensures
            r@ == if self@.blocks.len() == 0 {
                Seq::<u8>::empty()
            } else {
                self@.blocks.last().hash
            },
    {
        let n = self.blocks.len();
        if n == 0 {
            Bytes::default()
        } else {
            self.blocks[n - 1].hash.clone()
        }
    }

    /// The highest height heard of from peers.
    pub fn max_height(&self) -> (r: u64)
        ensures
            r == self@.max_height,
    {
        self.max_height
    }

    /// Raises the highest height heard of; never lowers it.
    pub fn update_max_height(&mut self, height: u64)
        ensures
            final(self)@.max_height == if height > old(self)@.max_height {
                height
            } else {
                old(self)@.max_height
            },
            final(self)@.blocks == old(self)@.blocks,
            final(self)@.origin == old(self)@.origin,
    {
        if height > self.max_height {
            self.max_height = height;
        }
    }

    /// Appends a block.  The store never validates: the caller classifies
    /// the block first.  A chain of secured blocks stays secured when the
    /// appended block is itself valid.
    #[verifier::spinoff_prover]
    pub fn add_block(&mut self, block: Block)
        requires
            chain_positioned(old(self)@),
            spec_extends(old(self)@, block@),
        ensures
            final(self)@.blocks == old(self)@.blocks.push(block@),
            final(self)@.origin == old(self)@.origin,
            final(self)@.max_height == old(self)@.max_height,
            chain_positioned(final(self)@),
            chain_secured(old(self)@) && block_secured(block@) ==> chain_secured(final(self)@),
    {
        let ghost b = block@;
        self.blocks.push(block);
        proof {
            let o = old(self)@;
            let c = self@;
            assert(c.blocks =~= o.blocks.push(b));
            assert forall|i: int| 0 <= i < c.blocks.len() implies (#[trigger] c.blocks[i]).index
                == i + 1 by {
                if i < o.blocks.len() {
                    assert(c.blocks[i] == o.blocks[i]);
                }
            }
            assert forall|i: int|
                1 <= i < c.blocks.len() implies (#[trigger] c.blocks[i]).prev_block_hash
                == c.blocks[i - 1].hash by {
                if i < o.blocks.len() {
                    assert(c.blocks[i] == o.blocks[i]);
                } else {
                    assert(c.blocks[i - 1] == o.blocks.last());
                }
            }
            assert forall|i: int|
                0 <= i < c.blocks.len() implies -(MAX_TIMESTAMP + MAX_CLOCK_SKEW) <= (
            #[trigger] c.blocks[i]).timestamp <= MAX_TIMESTAMP + MAX_CLOCK_SKEW by {
                if i < o.blocks.len() {
                    assert(c.blocks[i] == o.blocks[i]);
                }
            }
            assert(chain_positioned(c));
            if chain_secured(o) && block_secured(b) {
                lemma_push_keeps_secured(o, c, b);
            }
        }
    }

    /// Overwrites the block at a height with a competing block that won a
    /// fork there.  The replacement must keep the chain linked on both
    /// sides; the old block's derived registry rows vanish with it, since
    /// the registries are read off the blocks.
    #[verifier::rlimit(60)]
    #[verifier::spinoff_prover]
    pub fn replace_block(&mut self, index: u64, block: Block)
        requires
            chain_positioned(old(self)@),
            spec_replace_pos(old(self)@, index, block@),
        ensures
            final(self)@.blocks == old(self)@.blocks.update(index - 1, block@),
            final(self)@.origin == old(self)@.origin,
            final(self)@.max_height == old(self)@.max_height,
            chain_positioned(final(self)@),
            chain_secured(old(self)@) && block_secured(block@) ==> chain_secured(final(self)@),
    {
        let ghost b = block@;
        let n = self.blocks.len();
        assert(old(self)@.blocks.len() == n);
        let i = (index - 1) as usize;
        assert(i as int == index - 1);
        self.blocks.set(i, block);
        proof {
            let o = old(self)@;
            let c = self@;
            assert(c.blocks =~= o.blocks.update(index - 1, b));
            lemma_update_keeps_positioned(o, c, index, b);
            if chain_secured(o) && block_secured(b) {
                lemma_update_keeps_secured(o, c, index, b);
            }
        }
    }
}

/// The candidate passes the validator against this chain at this time.
pub open spec fn spec_tx_admissible(bs: Seq<BlockV>, b: BlockV) -> bool {
    match b.transaction {
        None => true,
        Some(t) => {
            let zone = is_zone_class(t);
            &&& spec_id_available(bs, t.identity, b.pub_key, zone)
            &&& match spec_last_full_for_key(bs, b.pub_key) {
                None => true,
                Some(last) => spec_id_in_chain(bs, t.identity, zone) || last.timestamp
                    + NEW_DOMAINS_INTERVAL <= b.timestamp,
            }
        },
    }
}

/// Whether the locker sub-protocol rejects the candidate: while the last
/// full block is not yet covered, full blocks must wait and lockers must be
/// signed by fresh committee members.
pub open spec fn spec_locker_violation(bs: Seq<BlockV>, b: BlockV) -> bool {
    b.index >= LOCKER_BLOCK_START && match spec_last_full(bs) {
        None => false,
        Some(f) => {
            let k = spec_height(bs) as int - f.index as int;
            if k < LOCKER_BLOCK_SIGNS {
                if is_full(b) {
                    true
                } else {
                    !spec_check_for_signing(bs, b, f)
                }
            } else if k < LOCKER_BLOCK_LOCKERS && !is_full(b) {
                !spec_check_for_signing(bs, b, f)
            } else {
                false
            }
        },
    }
}

/// The validator: every acceptance rule in order, the first failing one
/// giving the verdict.
pub open spec fn spec_classify(c: ChainV, b: BlockV, now: int) -> BlockQuality {
    let bs = c.blocks;
    if b.timestamp > now + MAX_CLOCK_SKEW {
        BlockQuality::Bad
    } else if !spec_key_strong(b.pub_key, KEYSTORE_DIFFICULTY) {
        BlockQuality::Bad
    } else if b.difficulty < spec_required_difficulty(bs, b) {
        BlockQuality::Bad
    } else if leading_zero_bits(b.hash) < b.difficulty {
        BlockQuality::Bad
    } else if !hash_ok(b) {
        BlockQuality::Bad
    } else if !sig_ok(b) {
        BlockQuality::Bad
    } else if !spec_tx_admissible(bs, b) {
        BlockQuality::Bad
    } else if bs.len() == 0 {
        if !spec_is_genesis(b) {
            BlockQuality::Future
        } else if !seq_is_zero(c.origin) && b.hash != c.origin {
            BlockQuality::Bad
        } else {
            BlockQuality::Good
        }
    } else {
        let last = bs.last();
        if b.timestamp < last.timestamp && b.index > last.index {
            BlockQuality::Bad
        } else if b.index > last.index + 1 {
            BlockQuality::Future
        } else if spec_locker_violation(bs, b) {
            BlockQuality::Bad
        } else if b.index <= last.index {
            if b.index == last.index && last.hash == b.hash {
                BlockQuality::Twin
            } else {
                match spec_get_block(bs, b.index) {
                    Some(mine) => if mine.hash != b.hash {
                        BlockQuality::Fork
                    } else {
                        BlockQuality::Twin
                    },
                    None => BlockQuality::Good,
                }
            }
        } else {
            BlockQuality::Good
        }
    }
}

/// A transaction the chain can look up later: what get_domain_transaction
/// returns for a name at a time.
pub open spec fn spec_domain_tx(bs: Seq<BlockV>, name: Seq<char>, now: int) -> Option<
    TransactionV,
> {
    if name.len() == 0 {
        None
    } else {
        match spec_latest_commit(bs, identity_hash(name), false) {
            None => None,
            Some(b) => {
                let t = b.transaction->Some_0;
                if b.timestamp < now - DOMAIN_LIFETIME {
                    None
                } else if t.identity == hash_of(
                    vstd::utf8::encode_utf8(name) + t.confirmation,
                ) {
                    Some(t)
                } else {
                    None
                }
            },
        }
    }
}

/// Number of dots in a name.
pub open spec fn dot_count(s: Seq<char>) -> int
    decreases s.len(),
{
    if s.len() == 0 {
        0
    } else {
        dot_count(s.drop_last()) + if s.last() == '.' {
            1int
        } else {
            0int
        }
    }
}

/// Whether a domain can be claimed by this key: the name is non-empty, its
/// identity is free or self-owned, and for a second-level name the parent
/// zone is known; deeper names are refused.
pub open spec fn spec_domain_available(bs: Seq<BlockV>, name: Seq<char>, key: Seq<u8>) -> bool {
    &&& name.len() > 0
    &&& spec_id_available(bs, identity_hash(name), key, false)
    &&& if dot_count(name) == 0 {
        true
    } else if dot_count(name) >= 2 {
        false
    } else {
        spec_id_in_chain(bs, identity_hash(crate::commons::spec_domain_zone(name)), true)
    }
}

/// The friendly pre-flight verdict on mining a domain, mirroring the
/// validator's transaction rules.
pub open spec fn spec_can_mine(c: ChainV, raw: Seq<char>, key: Seq<u8>, now: int) -> MineResult {
    let bs = c.blocks;
    let name = crate::commons::spec_lower(raw);
    if !crate::commons::spec_check_domain(name, true) {
        MineResult::WrongName
    } else if !spec_id_in_chain(bs, identity_hash(crate::commons::spec_domain_zone(name)), true) {
        MineResult::WrongZone
    } else if match spec_domain_tx(bs, name, now) {
        Some(t) => t.pub_key != key,
        None => false,
    } {
        MineResult::NotOwned
    } else {
        match spec_last_full_for_key(bs, key) {
            None => MineResult::Fine,
            Some(last) => if !spec_id_in_chain(bs, identity_hash(name), false) && last.timestamp
                + NEW_DOMAINS_INTERVAL - now > 0 {
                MineResult::Cooldown { time: (last.timestamp + NEW_DOMAINS_INTERVAL - now) as i64 }
            } else {
                MineResult::Fine
            },
        }
    }
}

/// The last full block stands in the chain at its height, and nothing
/// above it is full.
pub proof fn lemma_last_full_props(bs: Seq<BlockV>)
    requires
        forall|i: int| 0 <= i < bs.len() ==> (#[trigger] bs[i]).index == i + 1,
    ensures
        match spec_last_full(bs) {
            None => forall|j: int| 0 <= j < bs.len() ==> !is_full(#[trigger] bs[j]),
            Some(f) => 1 <= f.index <= bs.len() && bs[f.index - 1] == f && is_full(f)
                && forall|j: int| f.index <= j < bs.len() ==> !is_full(#[trigger] bs[j]),
        },
    decreases bs.len(),
{
    if bs.len() > 0 && !is_full(bs.last()) {
        let prefix = bs.drop_last();
        assert(forall|i: int| 0 <= i < prefix.len() ==> #[trigger] prefix[i] == bs[i]);
        lemma_last_full_props(prefix);
        match spec_last_full(bs) {
            None => {
                assert forall|j: int| 0 <= j < bs.len() implies !is_full(#[trigger] bs[j]) by {
                    if j < prefix.len() {
                        assert(prefix[j] == bs[j]);
                    }
                }
            },
            Some(f) => {
                assert(bs[f.index - 1] == prefix[f.index - 1]);
                assert forall|j: int| f.index <= j < bs.len() implies !is_full(
                    #[trigger] bs[j],
                ) by {
                    if j < prefix.len() {
                        assert(prefix[j] == bs[j]);
                    }
                }
            },
        }
    }
}

/// The last full block by a key stands in the chain at its height, and
/// nothing above it is full and by that key.
pub proof fn lemma_last_full_key_props(bs: Seq<BlockV>, key: Seq<u8>)
    requires
        forall|i: int| 0 <= i < bs.len() ==> (#[trigger] bs[i]).index == i + 1,
    ensures
        match spec_last_full_for_key(bs, key) {
            None => forall|j: int|
                0 <= j < bs.len() ==> !(is_full(#[trigger] bs[j]) && bs[j].pub_key == key),
            Some(f) => 1 <= f.index <= bs.len() && bs[f.index - 1] == f && is_full(f)
                && f.pub_key == key && forall|j: int|
                f.index <= j < bs.len() ==> !(is_full(#[trigger] bs[j]) && bs[j].pub_key == key),
        },
    decreases bs.len(),
{
    if bs.len() > 0 && !(is_full(bs.last()) && bs.last().pub_key == key) {
        let prefix = bs.drop_last();
        assert(forall|i: int| 0 <= i < prefix.len() ==> #[trigger] prefix[i] == bs[i]);
        lemma_last_full_key_props(prefix, key);
        match spec_last_full_for_key(bs, key) {
            None => {
                assert forall|j: int| 0 <= j < bs.len() implies !(is_full(#[trigger] bs[j])
                    && bs[j].pub_key == key) by {
                    if j < prefix.len() {
                        assert(prefix[j] == bs[j]);
                    }
                }
            },
            Some(f) => {
                assert(bs[f.index - 1] == prefix[f.index - 1]);
                assert forall|j: int| f.index <= j < bs.len() implies !(is_full(
                    #[trigger] bs[j],
                ) && bs[j].pub_key == key) by {
                    if j < prefix.len() {
                        assert(prefix[j] == bs[j]);
                    }
                }
            },
        }
    }
}

/// What the latest commitment of an identity satisfies: it commits that
/// identity in that registry.
pub proof fn lemma_latest_commit_props(bs: Seq<BlockV>, id: Seq<u8>, zone: bool)
    ensures
        match spec_latest_commit(bs, id, zone) {
            None => true,
            Some(b) => commits_id(b, id, zone),
        },
    decreases bs.len(),
{
    if bs.len() > 0 && !commits_id(bs.last(), id, zone) {
        lemma_latest_commit_props(bs.drop_last(), id, zone);
    }
}

/// The views of a vector of byte strings.
pub open spec fn bytes_views(s: Seq<Bytes>) -> Seq<Seq<u8>> {
    Seq::new(s.len(), |i: int| s[i]@)
}

/// Whether a zone list already carries an entry for the name.
pub open spec fn zones_have_name(list: Seq<(Seq<char>, u32)>, name: Seq<char>) -> bool {
    exists|k: int| 0 <= k < list.len() && (#[trigger] list[k]).0 == name
}

/// The zone registry read off the blocks from the newest backwards: one
/// entry per zone name, carrying the latest recorded difficulty, newest
/// first.
pub open spec fn spec_zones_rec(
    bs: Seq<BlockV>,
    found: Seq<(Seq<char>, u32)>,
) -> Seq<(Seq<char>, u32)>
    decreases bs.len(),
{
    if bs.len() == 0 {
        found
    } else {
        let b = bs.last();
        let found2 = match b.transaction {
            Some(t) => if is_zone_class(t) {
                match zone_meta_of(t.data) {
                    Some(meta) => if zones_have_name(found, meta.0) {
                        found
                    } else {
                        found.push(meta)
                    },
                    None => found,
                }
            } else {
                found
            },
            None => found,
        };
        spec_zones_rec(bs.drop_last(), found2)
    }
}

pub open spec fn spec_zones(bs: Seq<BlockV>) -> Seq<(Seq<char>, u32)> {
    spec_zones_rec(bs, Seq::<(Seq<char>, u32)>::empty())
}

/// Whether the collected zones already carry the name.
fn zones_contain(list: &Vec<ZoneData>, name: &String) -> (r: bool)
    ensures
        r == zones_have_name(
            Seq::new(list@.len(), |k: int| (list@[k].name@, list@[k].difficulty)),
            name@,
        ),
{
    let ghost view = Seq::new(list@.len(), |k: int| (list@[k].name@, list@[k].difficulty));
    let n = list.len();
    let mut i: usize = 0;
    while i < n
        invariant
            i <= n,
            n == list@.len(),
            view == Seq::new(list@.len(), |k: int| (list@[k].name@, list@[k].difficulty)),
            forall|k: int| 0 <= k < i ==> (#[trigger] view[k]).0 != name@,
        decreases n - i,
    {
        if crate::commons::str_eq(list[i].name.as_str(), name.as_str()) {
            assert(view[i as int].0 == name@);
            return true;
        }
        i = i + 1;
    }
    proof {
        if zones_have_name(view, name@) {
            let k = choose|k: int| 0 <= k < view.len() && (#[trigger] view[k]).0 == name@;
            assert(view[k].0 == name@);
            assert(false);
        }
    }
    false
}

/// Whether the transaction is a zone commitment.
fn tx_is_zone(t: &Transaction) -> (r: bool)
    ensures
        r == is_zone_class(t@),
{
    crate::commons::str_eq(t.class.as_str(), "zone")
}

/// Whether the transaction is a domain commitment.
fn tx_is_domain(t: &Transaction) -> (r: bool)
    ensures
        r == is_domain_class(t@),
{
    crate::commons::str_eq(t.class.as_str(), "domain")
}

/// Whether the block commits the identity in the given registry.
fn block_commits(b: &Block, id: &Bytes, zone: bool) -> (r: bool)
    ensures
        r == commits_id(b@, id@, zone),
{
    match &b.transaction {
        None => false,
        Some(t) => {
            let class_ok = if zone {
                tx_is_zone(t)
            } else {
                tx_is_domain(t)
            };
            class_ok && t.identity == *id
        },
    }
}

/// Whether a committee already holds the key.
fn signers_contain(signers: &Vec<Bytes>, key: &Bytes) -> (r: bool)
    ensures
        r == bytes_views(signers@).contains(key@),
{
    let n = signers.len();
    let mut i: usize = 0;
    while i < n
        invariant
            i <= n,
            n == signers@.len(),
            forall|j: int| 0 <= j < i ==> signers@[j]@ != key@,
        decreases n - i,
    {
        if &signers[i] == key {
            assert(bytes_views(signers@)[i as int] == key@);
            return true;
        }
        i = i + 1;
    }
    proof {
        if bytes_views(signers@).contains(key@) {
            let j = choose|j: int|
                0 <= j < bytes_views(signers@).len() && bytes_views(signers@)[j] == key@;
            assert(signers@[j]@ == key@);
        }
    }
    false
}

impl Chain {
    /// The latest full block, or the latest full block by the given key.
    pub fn get_last_full_block(&self, pub_key: Option<&[u8]>) -> (r: Option<Block>)
        ensures
            match pub_key {
                None => match r {
                    Some(b) => spec_last_full(self@.blocks) == Some(b@),
                    None => spec_last_full(self@.blocks) is None,
                },
                Some(k) => match r {
                    Some(b) => spec_last_full_for_key(self@.blocks, k@) == Some(b@),
                    None => spec_last_full_for_key(self@.blocks, k@) is None,
                },
            },
    {
        let ghost bs = self@.blocks;
        let n = self.blocks.len();
        let mut i: usize = n;
        proof {
            assert(bs.subrange(0, n as int) =~= bs);
        }
        while i > 0
            invariant
                i <= n,
                n == bs.len(),
                bs == self@.blocks,
                match pub_key {
                    None => spec_last_full(bs) == spec_last_full(bs.subrange(0, i as int)),
                    Some(k) => spec_last_full_for_key(bs, k@) == spec_last_full_for_key(
                        bs.subrange(0, i as int),
                        k@,
                    ),
                },
            decreases i,
        {
            let ghost prefix = bs.subrange(0, i as int);
            proof {
                assert(prefix.last() == bs[i - 1]);
                assert(prefix.drop_last() =~= bs.subrange(0, i - 1));
            }
            let b = &self.blocks[i - 1];
            let hit = match pub_key {
                None => b.transaction.is_some(),
                Some(k) => b.transaction.is_some() && crate::bytes::slice_eq(
                    b.pub_key.as_slice(),
                    k,
                ),
            };
            if hit {
                return Some(b.clone());
            }
            i = i - 1;
        }
        proof {
            assert(bs.subrange(0, 0) =~= Seq::<BlockV>::empty());
        }
        None
    }

    /// Whether the identity is free or already held by the given key in the
    /// given registry.
    pub fn is_id_available(&self, identity: &Bytes, public_key: &Bytes, zone: bool) -> (r: bool)
        ensures
            r == spec_id_available(self@.blocks, identity@, public_key@, zone),
    {
        proof {
            lemma_latest_commit_props(self@.blocks, identity@, zone);
        }
        match self.latest_commit(identity, zone) {
            None => true,
            Some(b) => match b.transaction {
                Some(t) => t.pub_key == *public_key,
                None => {
                    proof {
                        assert(false);
                    }
                    true
                },
            },
        }
    }

    /// The latest block committing the identity in the given registry.
    fn latest_commit(&self, identity: &Bytes, zone: bool) -> (r: Option<Block>)
        ensures
            match r {
                Some(b) => spec_latest_commit(self@.blocks, identity@, zone) == Some(b@),
                None => spec_latest_commit(self@.blocks, identity@, zone) is None,
            },
    {
        let ghost bs = self@.blocks;
        let n = self.blocks.len();
        let mut i: usize = n;
        proof {
            assert(bs.subrange(0, n as int) =~= bs);
        }
        while i > 0
            invariant
                i <= n,
                n == bs.len(),
                bs == self@.blocks,
                spec_latest_commit(bs, identity@, zone) == spec_latest_commit(
                    bs.subrange(0, i as int),
                    identity@,
                    zone,
                ),
            decreases i,
        {
            let ghost prefix = bs.subrange(0, i as int);
            proof {
                assert(prefix.last() == bs[i - 1]);
                assert(prefix.drop_last() =~= bs.subrange(0, i - 1));
            }
            let b = &self.blocks[i - 1];
            if block_commits(b, identity, zone) {
                return Some(b.clone());
            }
            i = i - 1;
        }
        proof {
            assert(bs.subrange(0, 0) =~= Seq::<BlockV>::empty());
        }
        None
    }

    /// Whether any block commits the identity in the given registry.
    pub fn is_id_in_blockchain(&self, id: &Bytes, zone: bool) -> (r: bool)
        ensures
            r == spec_id_in_chain(self@.blocks, id@, zone),
    {
        self.latest_commit(id, zone).is_some()
    }

    /// Whether the zone of this name is committed in the chain.
    pub fn is_zone_in_blockchain(&self, zone: &str) -> (r: bool)
        ensures
            r == spec_id_in_chain(self@.blocks, identity_hash(zone@), true),
    {
        let id = hash_identity(zone);
        self.is_id_in_blockchain(&id, true)
    }

    /// The mining difficulty of a zone, or the maximum where the zone is
    /// unknown.
    pub fn get_zone_difficulty(&self, zone: &str) -> (r: u32)
        ensures
            r == spec_zone_difficulty(self@.blocks, zone@),
    {
        let ghost bs = self@.blocks;
        let n = self.blocks.len();
        let mut i: usize = n;
        proof {
            assert(bs.subrange(0, n as int) =~= bs);
        }
        while i > 0
            invariant
                i <= n,
                n == bs.len(),
                bs == self@.blocks,
                spec_zone_difficulty(bs, zone@) == spec_zone_difficulty(
                    bs.subrange(0, i as int),
                    zone@,
                ),
            decreases i,
        {
            let ghost prefix = bs.subrange(0, i as int);
            proof {
                assert(prefix.last() == bs[i - 1]);
                assert(prefix.drop_last() =~= bs.subrange(0, i - 1));
            }
            let b = &self.blocks[i - 1];
            match &b.transaction {
                Some(t) => {
                    if tx_is_zone(t) {
                        match parse_zone_meta(t.data.as_str()) {
                            Some(meta) => {
                                if crate::commons::str_eq(meta.name.as_str(), zone) {
                                    return meta.difficulty;
                                }
                            },
                            None => {},
                        }
                    }
                },
                None => {},
            }
            i = i - 1;
        }
        proof {
            assert(bs.subrange(0, 0) =~= Seq::<BlockV>::empty());
        }
        u32::MAX
    }

    /// The zones recorded in the chain: one entry per name, with the
    /// latest recorded metadata, newest first.
    pub fn get_zones(&self) -> (r: Vec<ZoneData>)
        ensures
            Seq::new(r@.len(), |k: int| (r@[k].name@, r@[k].difficulty)) == spec_zones(
                self@.blocks,
            ),
    {
        let ghost bs = self@.blocks;
        let n = self.blocks.len();
        let mut result: Vec<ZoneData> = Vec::new();
        let mut i: usize = n;
        proof {
            assert(bs.subrange(0, n as int) =~= bs);
            assert(Seq::new(result@.len(), |k: int| (result@[k].name@, result@[k].difficulty))
                =~= Seq::<(Seq<char>, u32)>::empty());
        }
        while i > 0
            invariant
                i <= n,
                n == bs.len(),
                bs == self@.blocks,
                spec_zones(bs) == spec_zones_rec(
                    bs.subrange(0, i as int),
                    Seq::new(result@.len(), |k: int| (result@[k].name@, result@[k].difficulty)),
                ),
            decreases i,
        {
            let ghost prefix = bs.subrange(0, i as int);
            let ghost acc = Seq::new(
                result@.len(),
                |k: int| (result@[k].name@, result@[k].difficulty),
            );
            proof {
                assert(prefix.last() == bs[i - 1]);
                assert(prefix.drop_last() =~= bs.subrange(0, i - 1));
            }
            let b = &self.blocks[i - 1];
            match &b.transaction {
                Some(t) => {
                    if tx_is_zone(t) {
                        match parse_zone_meta(t.data.as_str()) {
                            Some(meta) => {
                                if !zones_contain(&result, &meta.name) {
                                    let ghost entry = (meta.name@, meta.difficulty);
                                    result.push(meta);
                                    proof {
                                        assert(Seq::new(
                                            result@.len(),
                                            |k: int| (result@[k].name@, result@[k].difficulty),
                                        ) =~= acc.push(entry));
                                    }
                                }
                            },
                            None => {},
                        }
                    }
                },
                None => {},
            }
            i = i - 1;
        }
        proof {
            assert(bs.subrange(0, 0) =~= Seq::<BlockV>::empty());
        }
        result
    }

    /// The difficulty a transaction demands of its block.
    fn get_difficulty_for_transaction(&self, t: &Transaction) -> (r: u32)
        ensures
            r == spec_tx_difficulty(self@.blocks, t@),
    {
        if tx_is_domain(t) {
            match parse_domain_zone(t.data.as_str()) {
                Some(zone) => self.get_zone_difficulty(zone.as_str()),
                None => u32::MAX,
            }
        } else if tx_is_zone(t) {
            ZONE_DIFFICULTY
        } else {
            u32::MAX
        }
    }

    /// The latest transaction held for a name, unless it is expired or its
    /// identity does not belong to the name.
    pub fn get_domain_transaction(&self, domain: &str, now: i64) -> (r: Option<Transaction>)
        requires
            -MAX_TIMESTAMP <= now <= MAX_TIMESTAMP,
        ensures
            match r {
                Some(t) => spec_domain_tx(self@.blocks, domain@, now as int) == Some(t@),
                None => spec_domain_tx(self@.blocks, domain@, now as int) is None,
            },
    {
        if domain.unicode_len() == 0 {
            return None;
        }
        let id = hash_identity(domain);
        proof {
            lemma_latest_commit_props(self@.blocks, id@, false);
        }
        match self.latest_commit(&id, false) {
            None => None,
            Some(b) => {
                if b.timestamp < now - DOMAIN_LIFETIME {
                    return None;
                }
                match b.transaction {
                    Some(t) => {
                        if t.check_identity(domain) {
                            Some(t)
                        } else {
                            None
                        }
                    },
                    None => {
                        proof {
                            assert(false);
                        }
                        None
                    },
                }
            },
        }
    }

    /// The payload of the latest transaction held for a name.
    pub fn get_domain_info(&self, domain: &str, now: i64) -> (r: Option<String>)
        requires
            -MAX_TIMESTAMP <= now <= MAX_TIMESTAMP,
        ensures
            match r {
                Some(s) => spec_domain_tx(self@.blocks, domain@, now as int) is Some && s@
                    == spec_domain_tx(self@.blocks, domain@, now as int)->Some_0.data,
                None => spec_domain_tx(self@.blocks, domain@, now as int) is None,
            },
    {
        match self.get_domain_transaction(domain, now) {
            None => None,
            Some(t) => Some(t.data),
        }
    }

    /// Whether this client can claim the domain: non-empty, free or
    /// self-owned, with a known parent zone and no deeper nesting.
    pub fn is_domain_available(&self, domain: &str, keystore: &crate::keys::Keystore) -> (r:
        bool)
        ensures
            r == spec_domain_available(self@.blocks, domain@, keystore.spec_public()),
    {
        let n = domain.unicode_len();
        if n == 0 {
            return false;
        }
        let id = hash_identity(domain);
        let public = keystore.get_public();
        if !self.is_id_available(&id, &public, false) {
            return false;
        }
        let mut dots: u64 = 0;
        let mut i: usize = 0;
        proof {
            assert(domain@.subrange(0, 0) =~= Seq::<char>::empty());
        }
        while i < n
            invariant
                i <= n,
                n == domain@.len(),
                dots == dot_count(domain@.subrange(0, i as int)),
                dots <= i,
            decreases n - i,
        {
            let c = domain.get_char(i);
            proof {
                assert(domain@.subrange(0, i + 1).drop_last() =~= domain@.subrange(0, i as int));
                assert(domain@.subrange(0, i + 1).last() == domain@[i as int]);
            }
            if c == '.' {
                dots = dots + 1;
            }
            i = i + 1;
        }
        proof {
            assert(domain@.subrange(0, n as int) =~= domain@);
        }
        if dots == 0 {
            return true;
        }
        if dots >= 2 {
            return false;
        }
        let zone = crate::commons::get_domain_zone(domain);
        self.is_zone_in_blockchain(zone.as_str())
    }

    /// The friendly pre-flight verdict on mining a domain.
    #[verifier::rlimit(100)]
    #[verifier::spinoff_prover]
    pub fn can_mine_domain(&self, domain: &str, pub_key: &Bytes, now: i64) -> (r: MineResult)
        requires
            chain_positioned(self@),
            -MAX_TIMESTAMP <= now <= MAX_TIMESTAMP,
        ensures
            r == spec_can_mine(self@, domain@, pub_key@, now as int),
    {
        let ghost goal = spec_can_mine(self@, domain@, pub_key@, now as int);
        let name = crate::commons::ascii_lowercase(domain);
        proof {
            assert(name@ == crate::commons::spec_lower(domain@));
        }
        if !crate::commons::check_domain(name.as_str(), true) {
            proof {
                assert(goal == MineResult::WrongName);
            }
            return MineResult::WrongName;
        }
        let zone = crate::commons::get_domain_zone(name.as_str());
        if !self.is_zone_in_blockchain(zone.as_str()) {
            proof {
                assert(goal == MineResult::WrongZone);
            }
            return MineResult::WrongZone;
        }
        match self.get_domain_transaction(name.as_str(), now) {
            Some(t) => {
                if !(t.pub_key == *pub_key) {
                    proof {
                        assert(goal == MineResult::NotOwned);
                    }
                    return MineResult::NotOwned;
                }
            },
            None => {},
        }
        let id = hash_identity(name.as_str());
        match self.get_last_full_block(Some(pub_key.as_slice())) {
            Some(last) => {
                proof {
                    lemma_last_full_key_props(self@.blocks, pub_key@);
                    let f = spec_last_full_for_key(self@.blocks, pub_key@)->Some_0;
                    assert(self@.blocks[f.index - 1] == f);
                    assert(-(MAX_TIMESTAMP + MAX_CLOCK_SKEW) <= f.timestamp <= MAX_TIMESTAMP
                        + MAX_CLOCK_SKEW);
                    assert(last@ == f);
                }
                let new_id = !self.is_id_in_blockchain(&id, false);
                let time = last.timestamp + NEW_DOMAINS_INTERVAL - now;
                if new_id && time > 0 {
                    proof {
                        assert(goal == (MineResult::Cooldown { time }));
                    }
                    return MineResult::Cooldown { time };
                }
                proof {
                    assert(goal == MineResult::Fine);
                }
                MineResult::Fine
            },
            None => {
                proof {
                    assert(goal == MineResult::Fine);
                }
                MineResult::Fine
            },
        }
    }

    /// The smallest height the next full block may claim.
    pub fn next_allowed_block(&self) -> (r: u64)
        requires
            chain_positioned(self@),
        ensures
            r as int == spec_next_allowed(self@),
    {
        let h = self.height();
        proof {
            if self@.blocks.len() > 0 {
                assert(self@.blocks.last() == self@.blocks[self@.blocks.len() - 1]);
            }
            lemma_last_full_props(self@.blocks);
        }
        match self.get_last_full_block(None) {
            None => h + 1,
            Some(f) => {
                if f.index < LOCKER_BLOCK_START {
                    h + 1
                } else {
                    let base = if f.index >= h {
                        f.index
                    } else {
                        h
                    };
                    base + LOCKER_BLOCK_SIGNS
                }
            },
        }
    }

    /// The committee of a full block: the keys entitled to sign above it.
    pub fn get_block_signers(&self, block: &Block) -> (r: Vec<Bytes>)
        requires
            block@.index <= 0x7FFFFFFFFFFFFFFF,
        ensures
            bytes_views(r@) == spec_signers(self@.blocks, block@),
    {
        let ghost bs = self@.blocks;
        let ghost f = block@;
        let mut result: Vec<Bytes> = Vec::new();
        if block.index == 0 {
            proof {
                assert(bytes_views(result@) =~= spec_signers(bs, f));
            }
            return result;
        }
        let tail = block.hash.get_tail_u64();
        let window = if block.index <= LOCKER_BLOCK_INTERVAL {
            block.index - 1
        } else {
            LOCKER_BLOCK_INTERVAL - 1
        };
        let start = block.index - window;
        let mut count: u64 = 1;
        proof {
            assert(bytes_views(result@) =~= Seq::<Seq<u8>>::empty());
        }
        while count <= LOCKER_WALK_BOUND && (result.len() as u64) < LOCKER_BLOCK_LOCKERS
            invariant
                1 <= count <= LOCKER_WALK_BOUND + 1,
                bs == self@.blocks,
                f == block@,
                f.index >= 1,
                f.index <= 0x7FFFFFFFFFFFFFFF,
                tail == tail_u64_of(f.hash),
                window as int == if f.index <= LOCKER_BLOCK_INTERVAL {
                    f.index - 1
                } else {
                    LOCKER_BLOCK_INTERVAL - 1
                },
                start == f.index - window,
                result@.len() <= LOCKER_BLOCK_LOCKERS,
                spec_signers(bs, f) == spec_signers_rec(bs, f, count, bytes_views(result@)),
            decreases LOCKER_WALK_BOUND + 1 - count,
        {
            let ghost acc = bytes_views(result@);
            assert(count <= LOCKER_WALK_BOUND);
            assert(tail % LOCKER_BLOCK_INTERVAL < LOCKER_BLOCK_INTERVAL);
            assert((tail % LOCKER_BLOCK_INTERVAL) * count <= (LOCKER_BLOCK_INTERVAL - 1)
                * LOCKER_WALK_BOUND) by (nonlinear_arith)
                requires
                    tail % LOCKER_BLOCK_INTERVAL <= LOCKER_BLOCK_INTERVAL - 1,
                    count <= LOCKER_WALK_BOUND,
            ;
            let m = ((tail % LOCKER_BLOCK_INTERVAL) * count) % LOCKER_BLOCK_INTERVAL;
            proof {
                vstd::arithmetic::div_mod::lemma_mul_mod_noop_left(
                    tail as int,
                    count as int,
                    LOCKER_BLOCK_INTERVAL as int,
                );
                assert(m == walk_index(f, count) - start);
            }
            let idx = start + m;
            match self.get_block(idx) {
                Some(b) => {
                    if !(b.pub_key == block.pub_key) && !signers_contain(&result, &b.pub_key) {
                        result.push(b.pub_key);
                        proof {
                            assert(bytes_views(result@) =~= acc.push(
                                bs[walk_index(f, count) - 1].pub_key,
                            ));
                        }
                    }
                },
                None => {},
            }
            count = count + 1;
        }
        proof {
            assert(spec_signers_rec(bs, f, count, bytes_views(result@)) == bytes_views(
                result@,
            ));
        }
        result
    }

    /// Whether a locker candidate may sign the full block: committee
    /// membership and one signature per signer.
    fn check_block_for_signing(&self, block: &Block, full_block: &Block) -> (r: BlockQuality)
        requires
            chain_positioned(self@),
            full_block@.index <= 0x7FFFFFFFFFFFFFFF,
            block@.index <= self@.blocks.len() + 1,
        ensures
            r == if spec_check_for_signing(self@.blocks, block@, full_block@) {
                BlockQuality::Good
            } else {
                BlockQuality::Bad
            },
    {
        let ghost bs = self@.blocks;
        let signers = self.get_block_signers(full_block);
        if !signers_contain(&signers, &block.pub_key) {
            return BlockQuality::Bad;
        }
        if full_block.index + 1 < block.index {
            let mut i: u64 = full_block.index + 1;
            while i < block.index
                invariant
                    full_block@.index < i <= block@.index,
                    bs == self@.blocks,
                    block@.index <= bs.len() + 1,
                    chain_positioned(self@),
                    forall|j: u64|
                        full_block@.index < j < i ==> match #[trigger] spec_get_block(bs, j) {
                            Some(bl) => bl.pub_key != block@.pub_key,
                            None => true,
                        },
                decreases block@.index - i,
            {
                match self.get_block(i) {
                    Some(signer) => {
                        if signer.pub_key == block.pub_key {
                            return BlockQuality::Bad;
                        }
                    },
                    None => {
                        proof {
                            assert(1 <= i <= bs.len());
                            assert(false);
                        }
                    },
                }
                i = i + 1;
            }
        }
        BlockQuality::Good
    }

    /// The validator: classifies a candidate block against the chain at
    /// the given wall-clock time.  It decides and never mutates; the caller
    /// acts on the verdict.
    #[verifier::rlimit(100)]
    #[verifier::spinoff_prover]
    pub fn check_new_block(&self, block: &Block, now: i64) -> (r: BlockQuality)
        requires
            chain_positioned(self@),
            -MAX_TIMESTAMP <= now <= MAX_TIMESTAMP,
        ensures
            r == spec_classify(self@, block@, now as int),
    {
        let ghost bs = self@.blocks;
        if block.timestamp > now + MAX_CLOCK_SKEW {
            return BlockQuality::Bad;
        }
        if !check_public_key_strength(&block.pub_key, KEYSTORE_DIFFICULTY) {
            return BlockQuality::Bad;
        }
        let required = match &block.transaction {
            None => if block.index == 1 {
                ZONE_DIFFICULTY
            } else {
                LOCKER_DIFFICULTY
            },
            Some(t) => self.get_difficulty_for_transaction(t),
        };
        if block.difficulty < required {
            return BlockQuality::Bad;
        }
        if crate::hashing::hash_difficulty(block.hash.as_slice()) < block.difficulty {
            return BlockQuality::Bad;
        }
        if !block.check_hash() {
            return BlockQuality::Bad;
        }
        if !block.check_signature() {
            return BlockQuality::Bad;
        }
        match &block.transaction {
            Some(t) => {
                let zone = tx_is_zone(t);
                if !self.is_id_available(&t.identity, &block.pub_key, zone) {
                    return BlockQuality::Bad;
                }
                match self.get_last_full_block(Some(block.pub_key.as_slice())) {
                    Some(last) => {
                        proof {
                            lemma_last_full_key_props(bs, block@.pub_key);
                        }
                        let new_id = !self.is_id_in_blockchain(&t.identity, zone);
                        if new_id && last.timestamp + NEW_DOMAINS_INTERVAL > block.timestamp {
                            return BlockQuality::Bad;
                        }
                    },
                    None => {},
                }
            },
            None => {},
        }
        let n = self.blocks.len();
        if n == 0 {
            if !block.is_genesis() {
                return BlockQuality::Future;
            }
            if !self.origin.is_zero() && !(block.hash == self.origin) {
                return BlockQuality::Bad;
            }
            return BlockQuality::Good;
        }
        let last = self.blocks[n - 1].clone();
        proof {
            assert(last@ == bs.last());
        }
        if block.timestamp < last.timestamp && block.index > last.index {
            return BlockQuality::Bad;
        }
        if last.index + 1 < block.index {
            return BlockQuality::Future;
        }
        if block.index >= LOCKER_BLOCK_START {
            proof {
                lemma_last_full_props(bs);
            }
            match self.get_last_full_block(None) {
                Some(full_block) => {
                    let h = self.height();
                    proof {
                        assert(bs.last() == bs[bs.len() - 1]);
                        assert(h == bs.len());
                    }
                    let locker_blocks = h - full_block.index;
                    if locker_blocks < LOCKER_BLOCK_SIGNS {
                        if block.transaction.is_some() {
                            return BlockQuality::Bad;
                        }
                        if self.check_block_for_signing(block, &full_block)
                            == BlockQuality::Bad {
                            return BlockQuality::Bad;
                        }
                    } else if locker_blocks < LOCKER_BLOCK_LOCKERS
                        && block.transaction.is_none() {
                        if self.check_block_for_signing(block, &full_block)
                            == BlockQuality::Bad {
                            return BlockQuality::Bad;
                        }
                    }
                },
                None => {},
            }
        }
        if block.index <= last.index {
            if block.index == last.index && last.hash == block.hash {
                return BlockQuality::Twin;
            }
            match self.get_block(block.index) {
                Some(mine) => {
                    if !(mine.hash == block.hash) {
                        return BlockQuality::Fork;
                    }
                    return BlockQuality::Twin;
                },
                None => {},
            }
        }
        BlockQuality::Good
    }

    /// Classifies a candidate and, where the verdict is Good and the block
    /// extends the tip within machine bounds, appends it; otherwise the
    /// chain is unchanged.  A secured chain stays secured.
    pub fn check_and_add_block(&mut self, block: Block, now: i64) -> (q: BlockQuality)
        requires
            chain_positioned(old(self)@),
            -MAX_TIMESTAMP <= now <= MAX_TIMESTAMP,
        ensures
            q == spec_classify(old(self)@, block@, now as int),
            q == BlockQuality::Good && spec_extends(old(self)@, block@) ==> final(self)@.blocks
                == old(self)@.blocks.push(block@) && final(self)@.origin == old(self)@.origin
                && final(self)@.max_height == old(self)@.max_height,
            !(q == BlockQuality::Good && spec_extends(old(self)@, block@)) ==> final(self)@
                == old(self)@,
            chain_positioned(final(self)@),
            chain_secured(old(self)@) && q == BlockQuality::Good && spec_extends(
                old(self)@,
                block@,
            ) ==> chain_secured(final(self)@),
    {
        let q = self.check_new_block(&block, now);
        if q == BlockQuality::Good {
            let h = self.height();
            proof {
                if self@.blocks.len() > 0 {
                    assert(self@.blocks.last() == self@.blocks[self@.blocks.len() - 1]);
                }
            }
            let n = self.blocks.len();
            let prev_ok = if n == 0 {
                block.prev_block_hash.is_empty()
            } else {
                let lh = self.last_hash();
                block.prev_block_hash == lh
            };
            let fits = block.index == h + 1 && prev_ok && (n as u64) + 1 <= 0x7FFFFFFFFFFFFFFF
                && -(MAX_TIMESTAMP + MAX_CLOCK_SKEW) <= block.timestamp && block.timestamp
                <= MAX_TIMESTAMP + MAX_CLOCK_SKEW;
            proof {
                assert(fits == spec_extends(self@, block@));
            }
            if fits {
                proof {
                    lemma_good_block_secured(old(self)@, block@, now as int);
                }
                self.add_block(block);
            }
        }
        q
    }

    /// Replaces the block at a height where the replacement is valid there
    /// and keeps the chain linked; reports whether it did.  A secured chain
    /// stays secured.
    pub fn check_and_replace_block(&mut self, index: u64, block: Block) -> (ok: bool)
        requires
            chain_positioned(old(self)@),
        ensures
            ok == (spec_replace_pos(old(self)@, index, block@) && block_secured(block@)),
            ok ==> final(self)@.blocks == old(self)@.blocks.update(index - 1, block@),
            ok ==> final(self)@.origin == old(self)@.origin,
            ok ==> final(self)@.max_height == old(self)@.max_height,
            !ok ==> final(self)@ == old(self)@,
            chain_positioned(final(self)@),
            chain_secured(old(self)@) && ok ==> chain_secured(final(self)@),
    {
        let n = self.blocks.len();
        let pos_ok = 1 <= index && index <= n as u64 && block.index == index;
        if !pos_ok {
            return false;
        }
        let prev_ok = if index == 1 {
            block.prev_block_hash.is_empty()
        } else {
            block.prev_block_hash == self.blocks[(index - 2) as usize].hash
        };
        let next_ok = if index < n as u64 {
            self.blocks[index as usize].prev_block_hash == block.hash
        } else {
            true
        };
        let ts_ok = -(MAX_TIMESTAMP + MAX_CLOCK_SKEW) <= block.timestamp && block.timestamp
            <= MAX_TIMESTAMP + MAX_CLOCK_SKEW;
        let sec_ok = block.check_hash() && block.check_signature()
            && crate::hashing::hash_difficulty(block.hash.as_slice()) >= block.difficulty
            && check_public_key_strength(&block.pub_key, KEYSTORE_DIFFICULTY);
        let ok = prev_ok && next_ok && ts_ok && sec_ok;
        proof {
            assert(ok == (spec_replace_pos(self@, index, block@) && block_secured(block@)));
        }
        if ok {
            self.replace_block(index, block);
            return true;
        }
        false
    }
}

/// A block the validator finds Good is cryptographically valid on its
/// own.
pub proof fn lemma_good_block_secured(c: ChainV, b: BlockV, now: int)
    requires
        spec_classify(c, b, now) == BlockQuality::Good,
    ensures
        block_secured(b),
{
}

} // verus!
