pub mod body;
pub mod methods;
