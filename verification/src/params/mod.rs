//! Parameters of the two schemes.
pub mod gsw;
pub mod rgsw;
