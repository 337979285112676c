pub mod engine;
pub mod sighash;
