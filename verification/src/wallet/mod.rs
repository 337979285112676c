pub mod address;
pub mod builder;
pub mod manager;
pub mod scan;
