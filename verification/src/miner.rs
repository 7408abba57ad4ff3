//! Mining decisions: the job queue and its flags, the reaction to bus
//! events, the pre-flight of a job against the chain, and the nonce scan.
//! Thread plumbing stays outside; these functions decide, and a driver
//! carries the decisions out.

use vstd::prelude::*;
use crate::bytes::Bytes;
use crate::constants::{CHAIN_VERSION, LOCKER_DIFFICULTY, KEYSTORE_DIFFICULTY};
use crate::block::{Block, BlockV, block_image, hash_ok, pow_ok};
use crate::hashing::{hash_of, leading_zero_bits, hash_bytes, hash_difficulty,
    check_public_key_strength, spec_key_strong};
use crate::keys::Keystore;
use crate::chain::{Chain, chain_positioned, spec_height};
use crate::event::Event;
use crate::commons::random_u32;

verus! {

/// One unit of work for the miner: a block template and the key pair that
/// will sign the result.
pub struct MineJob {
    pub block: Block,
    pub keystore: Keystore,
}

impl Clone for MineJob {
    fn clone(&self) -> (res: Self)
        ensures
            res.block@ == self.block@,
            res.keystore.spec_secret() == self.keystore.spec_secret(),
            res.keystore.spec_public() == self.keystore.spec_public(),
    {
        MineJob { block: self.block.clone(), keystore: self.keystore.clone() }
    }
}

/// The miner's queue and flags: jobs waiting, whether the supervisor runs,
/// whether an attempt is under way.
pub struct Miner {
    jobs: Vec<MineJob>,
    running: bool,
    mining: bool,
}

impl Miner {
    pub closed spec fn spec_jobs(&self) -> Seq<BlockV> {
        Seq::new(self.jobs@.len(), |i: int| self.jobs@[i].block@)
    }

    pub closed spec fn spec_running(&self) -> bool {
        self.running
    }

    pub closed spec fn spec_mining(&self) -> bool {
        self.mining
    }

    /// A fresh miner: no jobs, not running, not mining.
    pub fn new() -> (r: Miner)
        ensures
            r.spec_jobs() == Seq::<BlockV>::empty(),
            !r.spec_running(),
            !r.spec_mining(),
    {
        let r = Miner { jobs: Vec::new(), running: false, mining: false };
        proof {
            assert(r.spec_jobs() =~= Seq::<BlockV>::empty());
        }
        r
    }

    /// Enqueues a block to mine with the given key pair.
    pub fn add_block(&mut self, block: Block, keystore: Keystore)
        ensures
            final(self).spec_jobs() == old(self).spec_jobs().push(block@),
            final(self).spec_running() == old(self).spec_running(),
            final(self).spec_mining() == old(self).spec_mining(),
    {
        let ghost b = block@;
        self.jobs.push(MineJob { block, keystore });
        proof {
            assert(self.spec_jobs() =~= old(self).spec_jobs().push(b));
        }
    }

    /// Stops the miner: clears both flags so workers cancel and the
    /// supervisor exits.
    pub fn stop(&mut self)
        ensures
            final(self).spec_jobs() == old(self).spec_jobs(),
            !final(self).spec_running(),
            !final(self).spec_mining(),
    {
        self.mining = false;
        self.running = false;
        proof {
            assert(self.spec_jobs() =~= old(self).spec_jobs());
        }
    }

    /// Marks the supervisor as started.
    pub fn start(&mut self)
        ensures
            final(self).spec_jobs() == old(self).spec_jobs(),
            final(self).spec_running(),
            final(self).spec_mining() == old(self).spec_mining(),
    {
        self.running = true;
        proof {
            assert(self.spec_jobs() =~= old(self).spec_jobs());
        }
    }

    /// Whether the miner is active; reads the supervisor flag.
    pub fn is_mining(&self) -> (r: bool)
        ensures
            r == self.spec_running(),
    {
        self.running
    }

    /// The supervisor's step: while no attempt is under way, takes the
    /// oldest queued job and marks an attempt; otherwise yields nothing.
    pub fn take_job(&mut self) -> (r: Option<MineJob>)
        ensures
            old(self).spec_mining() || old(self).spec_jobs().len() == 0 ==> r is None
                && *final(self) == *old(self),
            !old(self).spec_mining() && old(self).spec_jobs().len() > 0 ==> r is Some
                && r->Some_0.block@ == old(self).spec_jobs().first() && final(self).spec_jobs()
                == old(self).spec_jobs().drop_first() && final(self).spec_mining()
                && final(self).spec_running() == old(self).spec_running(),
    {
        if self.mining || self.jobs.len() == 0 {
            return None;
        }
        let job = self.jobs.remove(0);
        self.mining = true;
        proof {
            assert(self.spec_jobs() =~= old(self).spec_jobs().drop_first());
        }
        Some(job)
    }

    /// Marks the current attempt as finished.
    pub fn attempt_done(&mut self)
        ensures
            final(self).spec_jobs() == old(self).spec_jobs(),
            final(self).spec_running() == old(self).spec_running(),
            !final(self).spec_mining(),
    {
        self.mining = false;
        proof {
            assert(self.spec_jobs() =~= old(self).spec_jobs());
        }
    }

    /// The miner's reaction to a bus event: an operator stop clears the
    /// mining flag; a locker request enqueues a locker template unless an
    /// attempt is under way; everything else is ignored.  The result says
    /// whether the subscription stays, and it always stays.
    pub fn handle_event(&mut self, event: &Event) -> (keep: bool)
        ensures
            keep,
            match event {
                Event::ActionStopMining => final(self).spec_jobs() == old(self).spec_jobs()
                    && !final(self).spec_mining()
                    && final(self).spec_running() == old(self).spec_running(),
                Event::ActionMineLocker { index, hash, keystore } => if old(self).spec_mining() {
                    *final(self) == *old(self)
                } else {
                    final(self).spec_jobs().len() == old(self).spec_jobs().len() + 1
                        && final(self).spec_jobs().last() == (BlockV {
                        index: *index,
                        timestamp: 0,
                        version: CHAIN_VERSION,
                        difficulty: LOCKER_DIFFICULTY,
                        random: 0,
                        nonce: 0,
                        prev_block_hash: hash@,
                        hash: Seq::<u8>::empty(),
                        pub_key: Seq::<u8>::empty(),
                        signature: Seq::<u8>::empty(),
                        transaction: None,
                    }) && final(self).spec_jobs().subrange(
                        0,
                        old(self).spec_jobs().len() as int,
                    ) == old(self).spec_jobs()
                        && final(self).spec_mining() == old(self).spec_mining()
                        && final(self).spec_running() == old(self).spec_running()
                },
                _ => *final(self) == *old(self),
            },
    {
        match event {
            Event::ActionStopMining => {
                self.mining = false;
                proof {
                    assert(self.spec_jobs() =~= old(self).spec_jobs());
                }
                true
            },
            Event::ActionMineLocker { index, hash, keystore } => {
                if !self.mining {
                    let mut block = Block::new(
                        None,
                        Bytes::default(),
                        hash.clone(),
                        LOCKER_DIFFICULTY,
                    );
                    block.index = *index;
                    let ghost b = block@;
                    self.jobs.push(MineJob { block, keystore: (**keystore).clone() });
                    proof {
                        assert(self.spec_jobs() =~= old(self).spec_jobs().push(b));
                        assert(self.spec_jobs().subrange(0, old(self).spec_jobs().len() as int)
                            =~= old(self).spec_jobs());
                        assert(b =~= (BlockV {
                            index: *index,
                            timestamp: 0,
                            version: CHAIN_VERSION,
                            difficulty: LOCKER_DIFFICULTY,
                            random: 0,
                            nonce: 0,
                            prev_block_hash: hash@,
                            hash: Seq::<u8>::empty(),
                            pub_key: Seq::<u8>::empty(),
                            signature: Seq::<u8>::empty(),
                            transaction: None,
                        }));
                    }
                }
                true
            },
            _ => true,
        }
    }
}

/// The block a job's template turns into with the given nonce.
pub open spec fn with_nonce(b: BlockV, nonce: u64) -> BlockV {
    BlockV { nonce, ..b }
}

/// Pre-flight of a job against the chain, as the supervisor runs it before
/// dispatching workers.  A locker template (one with a height and a
/// predecessor already chosen) is abandoned where the key is weak or the
/// chain has moved past it; a full template is pointed at the tip.  The
/// hash and signature are cleared either way and the miner's key is put in.
pub open spec fn spec_preflight(b: BlockV, secret: Seq<u8>, public: Seq<u8>, c: crate::chain::ChainV) -> Option<
    BlockV,
> {
    let cleared = BlockV {
        hash: Seq::<u8>::empty(),
        signature: Seq::<u8>::empty(),
        version: CHAIN_VERSION,
        ..b
    };
    if b.index > 0 && b.prev_block_hash.len() > 0 {
        let locker = BlockV { pub_key: public, ..cleared };
        if !spec_key_strong(public, KEYSTORE_DIFFICULTY) {
            None
        } else if c.blocks.len() > 0 && (c.blocks.last().index > b.index || c.blocks.last().hash
            != b.prev_block_hash) {
            None
        } else {
            Some(locker)
        }
    } else {
        Some(
            BlockV {
                index: (spec_height(c.blocks) + 1) as u64,
                prev_block_hash: if c.blocks.len() == 0 {
                    Seq::<u8>::empty()
                } else {
                    c.blocks.last().hash
                },
                pub_key: public,
                ..cleared
            },
        )
    }
}

/// Runs the pre-flight of a job against the chain.
pub fn preflight_job(job: &MineJob, chain: &Chain) -> (r: Option<Block>)
    requires
        chain_positioned(chain@),
    ensures
        match r {
            Some(b) => spec_preflight(
                job.block@,
                job.keystore.spec_secret(),
                job.keystore.spec_public(),
                chain@,
            ) == Some(b@),
            None => spec_preflight(
                job.block@,
                job.keystore.spec_secret(),
                job.keystore.spec_public(),
                chain@,
            ) is None,
        },
{
    let mut block = job.block.clone();
    block.hash = Bytes::default();
    block.signature = Bytes::default();
    block.version = CHAIN_VERSION;
    block.pub_key = job.keystore.get_public();
    if block.index > 0 && block.prev_block_hash.len() > 0 {
        if !check_public_key_strength(&block.pub_key, KEYSTORE_DIFFICULTY) {
            return None;
        }
        match chain.last_block() {
            Some(last) => {
                if last.index > block.index || !(last.hash == block.prev_block_hash) {
                    return None;
                }
            },
            None => {},
        }
        proof {
            assert(block@ =~= spec_preflight(
                job.block@,
                job.keystore.spec_secret(),
                job.keystore.spec_public(),
                chain@,
            )->Some_0);
        }
        Some(block)
    } else {
        proof {
            if chain@.blocks.len() > 0 {
                assert(chain@.blocks.last() == chain@.blocks[chain@.blocks.len() - 1]);
            }
        }
        let h = chain.height();
        block.index = h + 1;
        block.prev_block_hash = chain.last_hash();
        proof {
            assert(block@ =~= spec_preflight(
                job.block@,
                job.keystore.spec_secret(),
                job.keystore.spec_public(),
                chain@,
            )->Some_0);
        }
        Some(block)
    }
}

/// Freshens a template before a scan: a new salt and the current time, as
/// a worker does at the top of its loop.  Nothing is promised of the salt.
pub fn randomize_template(block: &mut Block, timestamp: i64)
    ensures
        final(block)@ == (BlockV { random: final(block)@.random, timestamp, ..old(block)@ }),
{
    block.random = random_u32();
    block.timestamp = timestamp;
}

/// Scans a range of nonces for one that makes the template's hash meet its
/// difficulty: the inner loop of a hashing worker.  Where a nonce wins, the
/// returned block carries it and its content hash; where none does, no
/// nonce in the range wins.
pub fn scan_nonces(block: &Block, start_nonce: u64, attempts: u64) -> (r: Option<Block>)
    requires
        start_nonce + attempts <= u64::MAX,
    ensures
        match r {
            Some(won) => {
                &&& start_nonce <= won@.nonce < start_nonce + attempts
                &&& won@ == (BlockV { hash: won@.hash, ..with_nonce(block@, won@.nonce) })
                &&& hash_ok(won@)
                &&& pow_ok(won@)
            },
            None => forall|n: u64|
                start_nonce <= n < start_nonce + attempts ==> leading_zero_bits(
                    hash_of(block_image(#[trigger] with_nonce(block@, n))),
                ) < block@.difficulty,
        },
{
    let mut candidate = block.clone();
    let mut nonce = start_nonce;
    while nonce < start_nonce + attempts
        invariant
            start_nonce <= nonce <= start_nonce + attempts,
            start_nonce + attempts <= u64::MAX,
            candidate@ == with_nonce(block@, candidate@.nonce),
            candidate@.difficulty == block@.difficulty,
            forall|n: u64|
                start_nonce <= n < nonce ==> leading_zero_bits(
                    hash_of(block_image(#[trigger] with_nonce(block@, n))),
                ) < block@.difficulty,
        decreases start_nonce + attempts - nonce,
    {
        candidate.nonce = nonce;
        proof {
            assert(candidate@ =~= with_nonce(block@, nonce));
        }
        let image = candidate.as_bytes();
        let digest = hash_bytes(image.as_slice());
        let difficulty = hash_difficulty(digest.as_slice());
        if difficulty >= candidate.difficulty {
            candidate.hash = digest;
            proof {
                assert(candidate@ =~= (BlockV {
                    hash: candidate@.hash,
                    ..with_nonce(block@, nonce)
                }));
                assert(block_image(candidate@) == block_image(with_nonce(block@, nonce))) by {
                    reveal(crate::block::block_image);
                }
            }
            return Some(candidate);
        }
        nonce = nonce + 1;
    }
    None
}

} // verus!
