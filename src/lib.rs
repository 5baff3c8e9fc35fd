//! A decoder for the FLAC lossless audio format, with a reader for
//! uncompressed RIFF/WAVE files.

pub mod bits;
pub mod bytes;
pub mod crc;
pub mod error;
pub mod flac;
pub mod frame;
pub mod header;
pub mod metadata;
pub mod residual;
pub mod subframe;
pub mod wave;
