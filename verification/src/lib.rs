//! A JPEG 2000 codec library: tier-1 and tier-2 coding, wavelet and colour transforms,
//! codestream markers and the JP2 container.
pub mod arith;
pub mod bits;
pub mod types;
pub mod error;
pub mod image;
pub mod io;
pub mod tcd;
pub mod tier2;
pub mod j2k;
pub mod transform;
pub mod coding;
pub mod jp2;
pub mod api;
pub mod image_io;
