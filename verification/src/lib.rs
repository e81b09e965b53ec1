//! Systematic binary BCH codes over GF(2).
//!
//! The library encodes information words into systematic codewords by
//! polynomial division over the two-element field, extracts syndromes from
//! received words, and analyses a code exhaustively: the pairwise
//! Hamming-distance histogram of all codewords and the syndrome table of all
//! low-weight error patterns.

pub mod bits;
pub mod gf2;
pub mod code;
pub mod analysis;
