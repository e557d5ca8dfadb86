//! A value-scored, lease-based cache of reconstructable assets.
pub mod abi;
pub mod asked;
pub mod asking;
pub mod effects;
pub mod facade;
pub mod index;
pub mod laws;
pub mod leases;
pub mod manager;
pub mod memory;
pub mod model;
pub mod sync;
pub mod trace;
pub mod types;
