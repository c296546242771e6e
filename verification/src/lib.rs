//! Sparse distributed representations (SDRs) for associative memory:
//! random sparse codes, bundling by union, similarity by overlap, and
//! class prototypes built from bundled codes.

pub mod seqs;
pub mod sdr;
pub mod random;
pub mod prototype;
pub mod laws;
pub mod draw_count;
