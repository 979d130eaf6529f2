//! Decoder for the string-pool chunk of a chunk-based binary resource
//! container: a fixed five-field header, a table of 32-bit offsets, and a
//! region of length-prefixed strings encoded either as UTF-8 or as UTF-16.

pub mod error;
pub mod stream;
pub mod pool;
pub mod encode;
