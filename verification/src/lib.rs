//! A deflate-style byte-stream compressor built from two classical codecs:
//! an LZ77 sliding-window match encoder backed by a ring buffer, and a
//! Huffman prefix-code encoder with bit-packed framing. The two are
//! independent and are composed into a pipeline by the caller.

pub mod bits;
pub mod huffman;
pub mod lz77;
pub mod ring;
