//! The region port: a cursor over one sample's clusters, for a voice.
pub mod cursor;
pub mod effects;
pub mod geometry;
pub mod laws;
pub mod leases;
pub mod manager_residency;
pub mod pool;
pub mod residency;
