pub mod commitments;
