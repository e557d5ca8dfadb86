//! Reading a sample outside of playback: a cursor of frames, reads into a buffer, peeks at
//! what is resident, and reservations ahead of a marker.
pub mod abi;
pub mod addresses;
pub mod balance;
pub mod content;
pub mod effects;
pub mod laws;
pub mod leases;
pub mod reservation;
pub mod sample_reader;
