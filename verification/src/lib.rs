//! Encoding front end of a Burrows-Wheeler text compressor.
//!
//! The pipeline runs in stages: a suffix array is built with SA-IS, the
//! Burrows-Wheeler transform is read off it, the transformed bytes are
//! recoded move-to-front, runs of zero codes are compacted, and a Huffman
//! code turns the result into a bit stream.

pub mod bitvec;
pub mod bwt;
pub mod huffman;
pub mod mtf;
pub mod order;
pub mod rle;
pub mod suffix_array;
pub mod util;
