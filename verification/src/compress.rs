//! The DEFLATE decompression pipeline: canonical Huffman tables, the
//! LZSS back-reference expander, the block decoder, and an LZ77
//! compressor/decompressor pair.

pub mod deflate;
pub mod huffman;
pub mod lz77;
pub mod lzss;
