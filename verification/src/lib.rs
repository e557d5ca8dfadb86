//! Sample streaming for a sampler: a lease-based cache of audio clusters, the fill that
//! reads clusters from the card, and the readers, reservations and cursors on top of it.
pub mod fill;
pub mod harness;
pub mod reader;
pub mod resource;
pub mod source;
pub mod stream;
