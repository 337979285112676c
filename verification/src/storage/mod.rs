pub mod blocks;
pub mod schema;
