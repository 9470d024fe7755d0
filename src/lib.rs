//! Parallel CRC32C checksumming of large files: per-block checksums computed
//! independently are folded, in offset order, into the checksum of the whole file.

pub mod block;
pub mod crc;
pub mod memory;
pub mod model;
pub mod round;
