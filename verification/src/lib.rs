//! Phased-in (minimal binary) codes: a prefix-free variable-length binary
//! encoding for an alphabet of `N` symbols (1 to 256), using `floor(log2 N)`
//! bits for the first `P` symbols and one bit more for the rest.
#![allow(non_snake_case)]

pub mod bits;
pub mod common;
pub mod decoder;
pub mod encoder;
