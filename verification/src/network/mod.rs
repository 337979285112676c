pub mod addrman;
pub mod mempool;
pub mod peer;
pub mod peers;
pub mod recovery;
pub mod relay;
pub mod sync;
