//! LZ77 with per-block Huffman coding and byte-shuffle transforms.

pub mod alone;
pub mod bits;
pub mod blocked;
pub mod canon;
pub mod cdc;
pub mod chunked;
pub mod cost;
pub mod deflate;
pub mod huffman;
pub mod kraft;
pub mod lanes;
pub mod lengths;
pub mod lz;
pub mod merge;
pub mod reader;
pub mod rle;
pub mod search;
pub mod shuffle;
pub mod shuffled;
pub mod smart;
pub mod stream;
pub mod symbols;
pub mod table;
pub mod tree;
