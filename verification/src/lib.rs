//! A verified PNG image decoder.
//!
//! The core is a from-scratch DEFLATE decompressor (RFC 1951) wrapped in
//! zlib framing (RFC 1950), together with the PNG chunk parser, scanline
//! defiltering and color conversion (RFC 2083).

pub mod bits;
pub mod codecs;
pub mod compress;
pub mod error;
pub mod hashs;
pub mod image;
