//! Wavelet and multi-component transforms.
pub mod dwt;
pub mod dwt_simd;
pub mod mct;
