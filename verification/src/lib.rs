//! Normalized dissimilarity between two symbolic sequences (for instance
//! biological sequences over a small alphabet).
//!
//! Two independent engines are provided:
//! - a fast heuristic over shared fixed-length substrings (k-mers), which
//!   chains matching anchors greedily and scores the gaps the chain implies;
//! - an exact global-alignment engine (Needleman-Wunsch style dynamic
//!   programming) that counts mismatches and gaps along a traceback.
//!
//! Both report the distance as an exact ratio of two integers in `[0, 1]`;
//! callers that want a floating-point value divide the two fields themselves.

pub mod kmer;
pub mod needleman_wunsch;
pub mod ratio;
