pub mod attestation;
pub mod bytes;
pub mod circuit;
pub mod registry;
pub mod store;
