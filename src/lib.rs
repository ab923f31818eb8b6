//! A short-read DNA aligner in the style of BWA-MEM: FM-index construction and
//! query, SMEM seeding, seed chaining, banded affine-gap Smith-Waterman, and
//! per-read orchestration with mapping-quality estimation.
pub mod align;
pub mod index;
pub mod util;
pub mod io;
