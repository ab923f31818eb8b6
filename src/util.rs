//! Small utilities shared by the index and the aligner.
pub mod dna;
