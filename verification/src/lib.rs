//! A byte-pair-encoding text codec.
//!
//! The crate trains a vocabulary of variable-length byte sequences from a
//! corpus by repeatedly merging the most frequent adjacent token pair, and
//! uses the resulting vocabulary to encode UTF-8 text into integer tokens
//! and decode it back losslessly.

pub mod codec;
