pub mod constants;
pub mod bytes;
pub mod hashing;
pub mod keys;
pub mod commons;
pub mod transaction;
pub mod block;
pub mod chain;
pub mod laws;
pub mod event;
pub mod miner;
