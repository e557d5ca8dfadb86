//! Filling a cluster: where its bytes are on the card, and what is done to them after the
//! read.
pub mod abi;
pub mod asking;
pub mod chunk;
pub mod context;
pub mod effects;
pub mod fill_logic;
pub mod laws;
pub mod native;
