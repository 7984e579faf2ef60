//! Data compression for message payloads.
pub mod huffman;
pub mod lz4;
