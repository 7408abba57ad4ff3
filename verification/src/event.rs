//! Events published on the in-process bus: miner and key-generator
//! lifecycle, chain changes, operator actions, network status.

use vstd::prelude::*;
use crate::bytes::Bytes;
use crate::keys::Keystore;

verus! {

/// One event on the bus.  Action events ask a component to do something;
/// the rest report what happened.
pub enum Event {
    MinerStarted,
    MinerStopped { success: bool, full: bool },
    MinerStats { thread: usize, speed: u64, max_diff: u32 },
    KeyGeneratorStarted,
    KeyGeneratorStopped,
    KeyCreated { path: String, public: String, hash: String },
    KeyLoaded { path: String, public: String, hash: String },
    KeySaved { path: String, public: String, hash: String },
    NewBlockReceived,
    BlockchainChanged { index: u64 },
    ActionStopMining,
    ActionMineLocker { index: u64, hash: Bytes, keystore: Box<Keystore> },
    ActionQuit,
    NetworkStatus { nodes: usize, blocks: u64 },
    Syncing { have: u64, height: u64 },
    SyncFinished,
}

} // verus!
