//! Extraction of CAN signals from frame payloads.
//!
//! A signal is a run of bits inside a payload, addressed either with the
//! Intel (little-endian) numbering or with the Motorola (big-endian)
//! row/column numbering of DBC databases. The library pulls that run out as
//! an unsigned integer and, for signed signals, reads it back as a two's
//! complement number of the signal's width.
pub mod model;
mod bignum;
pub mod signal;
pub mod payload;
pub mod laws;
