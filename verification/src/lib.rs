pub mod block;
pub mod codec;
pub mod miner;
pub mod registry;
pub mod text;
pub mod wallet;
