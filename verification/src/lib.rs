//! Huffman coding, verified.
//!
//! The pipeline: count symbol frequencies, build a Huffman tree by greedily
//! merging the two lightest subtrees, derive a prefix-free codebook from the
//! tree's root-to-leaf paths, and encode/decode messages as bit sequences.

pub mod freq;
pub mod tree;
pub mod builder;
pub mod book;
pub mod codec;
mod strops;
