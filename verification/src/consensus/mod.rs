pub mod block;
pub mod chain;
pub mod difficulty;
pub mod index;
pub mod params;
pub mod transaction;
pub mod outpoint_map;
pub mod utxo;
