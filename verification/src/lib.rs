//! Incremental DEFLATE / zlib decompression.

pub mod arith;
pub mod bits;
pub mod reverse;
pub mod codes;
pub mod error;
pub mod huffman;
pub mod code_length_reader;
pub mod window;
pub mod tables;
pub mod model;
pub mod state;
pub mod steps;
pub mod blocks;
pub mod inflate;
pub mod laws;
pub mod fixed;

pub use crate::error::InflateError;
pub use crate::inflate::InflateStream;
