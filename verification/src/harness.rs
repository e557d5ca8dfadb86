//! What the rest is held against: a disk in memory, the comparison of file trees, and
//! independent mappings.
pub mod diff;
pub mod fill_reference;
pub mod mapping;
pub mod ops;
pub mod paths;
pub mod ram_disk;
pub mod report;
