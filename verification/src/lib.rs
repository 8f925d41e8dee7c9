//! Least-significant-bit steganography over flat byte buffers.
//!
//! A payload is framed as a 32-bit big-endian bit count followed by its
//! bits, most significant bit of each byte first, and the frame is stored
//! one bit per carrier byte in that byte's lowest bit.

pub mod bit_utils;
pub mod cli;
pub mod decode;
pub mod encode;
pub mod round_trip;
