pub mod bytes;
pub mod hash;
pub mod serialize;
