//! A verified Huffman compression engine with a level-merge coding tree,
//! a compact binary dictionary format, bit-packed payloads, and a
//! random-access decoder, together with a verified merge sort.

pub mod bits;
pub mod huffman;
pub mod huffman_decoder;
pub mod merge_sort;
