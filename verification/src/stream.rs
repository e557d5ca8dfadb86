//! The files that samples are streamed from.
pub mod abi;
pub mod registry;
