//! Ferrous: consensus, script and wallet logic of a proof-of-work chain,
//! with contracts checked by Verus.
pub mod mining;
pub mod network;
pub mod primitives;
pub mod rpc;
pub mod consensus;
pub mod crypto;
pub mod script;
pub mod storage;
pub mod wallet;
