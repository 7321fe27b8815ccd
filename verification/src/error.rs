use vstd::prelude::*;

verus! {

/// Every failure the log or a block-device port can surface.
#[derive(Clone, Copy, Debug, PartialEq, Eq, Structural)]
pub enum Error {
    /// The region holds fewer than one config block plus two data blocks.
    TooSmallFilesystem,
    /// A block index outside the port's `[min, max)` range was used.
    BlockOutOfRange,
    /// The port could not position itself for a read.
    CanNotSeekForRead,
    /// The port could not position itself for a write.
    CanNotSeekForWrite,
    /// A read buffer shorter than one block was supplied.
    NotEnoughSpaceForRead,
    /// A write buffer whose length differs from the block size was supplied.
    DataLenNotEqualToBlockSize,
    /// The storage cannot be carved into blocks of the requested size.
    InvalidBlockSizeForStorage,
    /// A read was attempted with a block size the port does not serve.
    InvalidBlockSizeForRead,
    /// A write was attempted with a block size the port does not serve.
    InvalidBlockSizeForWrite,
    /// The buffer handed to a storage constructor is too small.
    TooSmallBuffer,
    /// The port gave up on a read after its retries.
    CanNotPerformRead,
    /// The port gave up on a write after its retries.
    CanNotPerformWrite,
    /// The config payload does not fit into one block's payload area.
    CanNotWriteConfig,
    /// The block addressed by a read does not belong to this log.
    NotValidBlockForRead,
    /// The config block at the region's first index fails its checksum.
    InvalidHeaderBlock,
}

} // verus!
