//! Forward error correction: interleaving, scrambling and channel codes.
pub mod convolutional;
pub mod interleaver;
pub mod ldpc;
pub mod scrambler;
