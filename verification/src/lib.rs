//! An append-only circular log of fixed-size, checksummed frames over a
//! sector-addressed block device.  The first block of the region holds a
//! config frame; the rest form a ring that appends overwrite oldest-first.
//! Mounting recovers the write cursor and next sequence id from an
//! arbitrary region state in logarithmically many block reads.

pub mod block;
pub mod error;
pub mod fs;
pub mod storage;
pub mod utils;
