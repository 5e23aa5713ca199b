//! Codec for floppy-disk image containers.
//!
//! The library translates between a raw sector dump (a linear byte buffer in
//! strict cylinder/head/sector order) and a compressed, track-structured
//! container that records a per-sector encoding mode and the physical
//! sector-id ordering of every track.  It also infers disk geometry from a
//! file size, renders human-readable reports, and extracts the header and
//! track table of flux-level capture images.

pub mod container;
pub mod convert;
pub mod errors;
pub mod geometry;
pub mod imd;
pub mod img;
pub mod laws;
pub mod model;
pub mod report;
pub mod scp;
pub mod track;
