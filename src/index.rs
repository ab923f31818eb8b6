//! The FM-index: suffix array, Burrows-Wheeler transform, rank tables and
//! the serialized envelope.
pub mod bwt;
pub mod fm;
pub mod reference;
pub mod sa;
