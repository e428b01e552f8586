//! Bit-level and byte-level input and output.
pub mod bio;
pub mod cio;
