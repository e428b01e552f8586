//! Entropy coding of code blocks.
pub mod ht_dec;
pub mod mqc;
pub mod sparse_array;
pub mod t1;
pub mod t1_decode;
pub mod t1_encode;
pub mod t1_passes;
pub mod t1_luts;
pub mod tgt;
