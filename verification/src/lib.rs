//! GLZ: a granular compression codec.
//!
//! GLZ combines backward Lempel-Ziv pattern matching with adaptive
//! Golomb-Rice entropy coding so that byte data can be compressed once
//! while any single slice of the original content can be decompressed
//! independently, in time proportional to the slice length.
//!
//! The crate is layered, leaves first:
//! - [`bits`]: a growable bit sequence and the fixed-width, MSB-first
//!   symbol codec that every other layer builds on;
//! - [`hist`]: a frequency histogram over a bounded symbol domain, and
//!   the bijective remap it derives by ranking symbols by frequency;
//! - [`rice`]: the Golomb-Rice coder (unary quotient, fixed remainder)
//!   with its histogram-driven parameter search;
//! - [`leb128`]: a byte-oriented variable-length integer code;
//! - [`glz`]: the pattern-matching encoder and the bounded-recursion,
//!   bounded-runtime granular decoder.

pub mod bits;
pub mod errors;
pub mod glz;
pub mod hist;
pub mod leb128;
pub mod rice;
