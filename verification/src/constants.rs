//! Parameters of the chain.  They are shared by the validator, the committee
//! selection, the miner and the key generator.

use vstd::prelude::*;

verus! {

/// Protocol version stamped into every block this node mines.
pub const CHAIN_VERSION: u32 = 1;

/// Required leading zero bits on the hash of a block carrying a zone
/// transaction, and on a genesis locker block.
pub const ZONE_DIFFICULTY: u32 = 1;

/// Required leading zero bits on the hash of a locker (signing) block.
pub const LOCKER_DIFFICULTY: u32 = 0;

/// Required leading zero bits on the hash of a public key for that key to be
/// accepted as a miner identity.
pub const KEYSTORE_DIFFICULTY: u32 = 0;

/// Height at which the locker sub-protocol switches on.  It is not smaller
/// than `LOCKER_BLOCK_INTERVAL`, so that the committee of any full block the
/// sub-protocol judges is drawn from blocks at or below that full block.
pub const LOCKER_BLOCK_START: u64 = 4;

/// Number of consecutive locker blocks that must cover a full block before
/// the next full block may be mined.
pub const LOCKER_BLOCK_SIGNS: u64 = 2;

/// Size of the committee entitled to sign a full block.
pub const LOCKER_BLOCK_LOCKERS: u64 = 3;

/// Size of the window of ancestors from which the committee is selected.
pub const LOCKER_BLOCK_INTERVAL: u64 = 4;

/// Upper bound on the committee walk: the walk visits at most this many
/// candidate positions, so it terminates even when the window holds fewer
/// than `LOCKER_BLOCK_LOCKERS` distinct eligible keys.
pub const LOCKER_WALK_BOUND: u64 = 32;

/// A key that already mined a full block must wait this many seconds before
/// committing an identity that is new to the chain.
pub const NEW_DOMAINS_INTERVAL: i64 = 86400;

/// Domain commitments older than this many seconds are treated as expired by
/// `Chain::get_domain_transaction`.
pub const DOMAIN_LIFETIME: i64 = 31536000;

/// A block whose timestamp is further than this many seconds in the future
/// is rejected.
pub const MAX_CLOCK_SKEW: i64 = 60;

/// Upper bound accepted for the wall clock, far beyond any realistic date;
/// keeps every timestamp sum well inside `i64`.
pub const MAX_TIMESTAMP: i64 = 2305843009213693952;

} // verus!
