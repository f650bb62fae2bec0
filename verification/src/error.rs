//! Error types for the decoder.
//!
//! `ErrorKind` enumerates every way a decode can fail; the core functions
//! return it directly so that contracts can state exactly which inputs
//! produce which failure. `DecodingError` and `ImageError` wrap a kind for
//! the image-level API.

use vstd::prelude::*;

verus! {

/// Every failure the decoder can report.
#[derive(Clone, Copy, Debug, PartialEq, Eq, Structural)]
pub enum ErrorKind {
    /// A bit or byte read ran past the end of the available data.
    InputTruncated,
    /// The PNG signature does not match.
    BadSignature,
    /// A chunk's stored CRC disagrees with its computed CRC.
    ChunkCrcMismatch,
    /// A critical chunk name is not understood.
    UnknownCriticalChunk,
    /// IHDR fields are outside the legal set.
    MalformedHeader,
    /// Legal PNG, but outside the supported subset (bit depth != 8, interlaced).
    Unsupported,
    /// The zlib CMF/FLG check failed or the preset-dictionary bit is set.
    ZlibFraming,
    /// The zlib trailer disagreed with the Adler-32 of the inflated output.
    AdlerMismatch,
    /// A DEFLATE block header carried block type 3.
    InvalidBlockType,
    /// LEN and NLEN of a stored block are not complements.
    InvalidStoredLength,
    /// Code lengths cannot be assembled into a prefix tree.
    InvalidHuffmanTable,
    /// A bit sequence does not correspond to any code.
    InvalidCode,
    /// A back-reference distance exceeds the bytes produced so far.
    InvalidDistance,
    /// A scanline filter byte outside 0..=4.
    InvalidFilter,
}

/// A decoding failure together with a human-readable message.
#[derive(Debug)]
pub struct DecodingError {
    pub kind: ErrorKind,
    pub msg: String,
}

impl DecodingError {
    /// Builds an error that carries only a message; the kind defaults to
    /// `MalformedHeader`, the most generic malformed-input report.
    pub fn new(s: &str) -> (r: Self)
        ensures
            r.msg@ == s@,
            r.kind == ErrorKind::MalformedHeader,
    {
        DecodingError { kind: ErrorKind::MalformedHeader, msg: s.to_owned() }
    }

    /// Builds an error from a kind alone.
    pub fn of_kind(kind: ErrorKind) -> (r: Self)
        ensures
            r.kind == kind,
            r.msg@ == Seq::<char>::empty(),
    {
        DecodingError { kind, msg: String::new() }
    }
}

/// Image-level error: decoding is the only failure the verified core produces.
#[derive(Debug)]
pub enum ImageError {
    Decoding(DecodingError),
}

impl ImageError {
    /// Builds an image error from a kind alone.
    pub fn of_kind(kind: ErrorKind) -> (r: Self)
        ensures
            r matches ImageError::Decoding(d) && d.kind == kind,
    {
        ImageError::Decoding(DecodingError::of_kind(kind))
    }
}

} // verus!
