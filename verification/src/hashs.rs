//! Checksum primitives: Adler-32 for the zlib trailer and CRC-32 for PNG
//! chunk verification.

pub mod adler32;
pub mod crc32;
