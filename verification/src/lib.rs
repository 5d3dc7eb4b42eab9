pub mod block;
pub mod blockchain;
pub mod codec;
pub mod digits;
pub mod errors;
pub mod forkset;
pub mod hashing;
mod host;
pub mod miner;
pub mod persist;
pub mod transaction;
