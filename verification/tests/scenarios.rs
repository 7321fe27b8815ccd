use appendfs::block::{Block, BlockFactory, BlockInfo};
use appendfs::error::Error;
use appendfs::fs::Filesystem;
use appendfs::storage::{RamStorage, Storage};

// The scenario region: 8 blocks of 32 bytes, so one config block and a
// ring of 7 data blocks with 18 payload bytes each.
const BLOCK_SIZE: usize = 32;
const REGION: usize = 8 * BLOCK_SIZE;
const PAYLOAD: usize = BLOCK_SIZE - 14;

fn payload(byte: u8) -> Vec<u8> {
    vec![byte; PAYLOAD]
}

fn read_back(fs: &mut Filesystem<RamStorage>, offset: usize) -> Result<Vec<u8>, Error> {
    let mut out = Vec::new();
    fs.read(offset, &mut out)?;
    Ok(out)
}

#[test]
fn format_then_mount_empty() {
    let storage = RamStorage::new(REGION, BLOCK_SIZE).expect("storage");
    let fs = Filesystem::new(storage, 0xAA).expect("format");
    assert!(fs.is_empty());
    assert!(!fs.is_full());
    assert_eq!(fs.offset(), 1);
    assert_eq!(fs.next_blk_id(), 0);
    assert_eq!(fs.id(), 0xAA);

    let fs = Filesystem::restore(fs.into_storage()).expect("mount");
    assert!(fs.is_empty());
    assert!(!fs.is_full());
    assert_eq!(fs.offset(), 1);
    assert_eq!(fs.next_blk_id(), 0);
    assert_eq!(fs.id(), 0xAA);
}

#[test]
fn three_appends() {
    let storage = RamStorage::new(REGION, BLOCK_SIZE).expect("storage");
    let mut fs = Filesystem::new(storage, 0xAA).expect("format");
    for b in 1..=3u8 {
        fs.append(&payload(b)).expect("append");
    }
    assert_eq!(fs.offset(), 4);
    assert_eq!(fs.next_blk_id(), 3);
    assert!(!fs.is_empty());
    assert!(!fs.is_full());
    assert_eq!(read_back(&mut fs, 0).expect("read 0"), payload(1));
    assert_eq!(read_back(&mut fs, 1).expect("read 1"), payload(2));
    assert_eq!(read_back(&mut fs, 2).expect("read 2"), payload(3));
    match read_back(&mut fs, 3) {
        Err(Error::NotValidBlockForRead) => {}
        other => panic!("read past the tail must fail, got {:?}", other),
    }
}

#[test]
fn wrap_around() {
    let storage = RamStorage::new(REGION, BLOCK_SIZE).expect("storage");
    let mut fs = Filesystem::new(storage, 0xAA).expect("format");
    for b in 1..=7u8 {
        fs.append(&payload(b)).expect("append");
    }
    assert!(fs.is_full());
    assert_eq!(fs.offset(), 1);
    assert_eq!(fs.next_blk_id(), 7);

    fs.append(&payload(8)).expect("append 8");
    assert_eq!(fs.offset(), 2);
    assert_eq!(fs.next_blk_id(), 8);
    for i in 0..7usize {
        let expected = payload((i + 2) as u8);
        assert_eq!(read_back(&mut fs, i).expect("read"), expected, "offset {}", i);
    }
}

#[test]
fn restart_after_wrap() {
    let storage = RamStorage::new(REGION, BLOCK_SIZE).expect("storage");
    let mut fs = Filesystem::new(storage, 0xAA).expect("format");
    for b in 1..=8u8 {
        fs.append(&payload(b)).expect("append");
    }
    let mut fs = Filesystem::restore(fs.into_storage()).expect("mount");
    assert_eq!(fs.id(), 0xAA);
    assert_eq!(fs.offset(), 2);
    assert_eq!(fs.next_blk_id(), 8);
    assert!(fs.is_full());
    assert!(!fs.is_empty());
    for i in 0..7usize {
        let expected = payload((i + 2) as u8);
        assert_eq!(read_back(&mut fs, i).expect("read"), expected, "offset {}", i);
    }
}

#[test]
fn mount_idempotent() {
    let storage = RamStorage::new(REGION, BLOCK_SIZE).expect("storage");
    let mut fs = Filesystem::new(storage, 0xAA).expect("format");
    for b in 1..=5u8 {
        fs.append(&payload(b)).expect("append");
    }
    let first = Filesystem::restore(fs.into_storage()).expect("mount once");
    let state1 = (first.offset(), first.next_blk_id(), first.is_empty(), first.is_full());
    let again = Filesystem::restore(first.into_storage()).expect("mount twice");
    let state2 = (again.offset(), again.next_blk_id(), again.is_empty(), again.is_full());
    assert_eq!(state1, state2);
}

#[test]
fn foreign_tail() {
    let storage = RamStorage::new(REGION, BLOCK_SIZE).expect("storage");
    let mut fs = Filesystem::new(storage, 0xAA).expect("format");
    for b in 1..=8u8 {
        fs.append(&payload(b)).expect("append");
    }
    let mut storage = fs.into_storage();

    // overwrite block index 5 with a frame of another instance, valid
    // checksum included
    let mut factory = BlockFactory::new();
    let mut frame = vec![0u8; BLOCK_SIZE];
    factory.create_with_writer(&mut frame, 0xBB, &payload(0x5A));
    storage.write(5, &frame).expect("overwrite");

    let mut fs = Filesystem::new(storage, 0xAA).expect("mount");
    assert_eq!(fs.offset(), 2);
    assert_eq!(fs.next_blk_id(), 8);
    match read_back(&mut fs, 3) {
        Err(Error::NotValidBlockForRead) => {}
        other => panic!("foreign block must not be read, got {:?}", other),
    }
}

#[test]
fn reformat() {
    let mut storage = RamStorage::new(REGION, BLOCK_SIZE).expect("storage");
    // arbitrary pre-existing contents: frames of another instance everywhere
    let mut factory = BlockFactory::new();
    for i in 0..8usize {
        let mut frame = vec![0u8; BLOCK_SIZE];
        factory.create_with_writer(&mut frame, 0xBB, &payload(i as u8));
        storage.write(i, &frame).expect("prefill");
    }
    let fs = Filesystem::new(storage, 0xCC).expect("format");
    assert!(fs.is_empty());
    let fs = Filesystem::restore(fs.into_storage()).expect("mount");
    assert!(fs.is_empty());
    assert_eq!(fs.id(), 0xCC);
    assert_eq!(fs.offset(), 1);
    assert_eq!(fs.next_blk_id(), 0);
}

#[test]
fn ring_of_capacity_two() {
    // three blocks: one config block and a ring of exactly two slots
    let storage = RamStorage::new(3 * BLOCK_SIZE, BLOCK_SIZE).expect("storage");
    let mut fs = Filesystem::new(storage, 0x11).expect("format");
    fs.append(&payload(1)).expect("append 1");
    assert!(!fs.is_full());
    assert_eq!(read_back(&mut fs, 0).expect("read"), payload(1));

    fs.append(&payload(2)).expect("append 2");
    assert!(fs.is_full());
    assert_eq!(read_back(&mut fs, 0).expect("read"), payload(1));
    assert_eq!(read_back(&mut fs, 1).expect("read"), payload(2));

    fs.append(&payload(3)).expect("append 3");
    assert_eq!(read_back(&mut fs, 0).expect("read"), payload(2));
    assert_eq!(read_back(&mut fs, 1).expect("read"), payload(3));

    let mut fs = Filesystem::restore(fs.into_storage()).expect("mount");
    assert_eq!(fs.next_blk_id(), 3);
    assert_eq!(read_back(&mut fs, 0).expect("read"), payload(2));
    assert_eq!(read_back(&mut fs, 1).expect("read"), payload(3));
}

#[test]
fn append_at_last_slot_sets_full_and_wraps() {
    let storage = RamStorage::new(REGION, BLOCK_SIZE).expect("storage");
    let mut fs = Filesystem::new(storage, 0xAA).expect("format");
    for b in 1..=6u8 {
        fs.append(&payload(b)).expect("append");
        assert!(!fs.is_full(), "not full after {} appends", b);
    }
    assert_eq!(fs.offset(), 7);
    fs.append(&payload(7)).expect("append at the last slot");
    assert!(fs.is_full());
    assert_eq!(fs.offset(), 1, "cursor wraps to the first data block");
    fs.append(&payload(8)).expect("append after the wrap");
    assert_eq!(fs.offset(), 2);
}

#[test]
fn torn_tail_keeps_preceding_frame_newest() {
    let storage = RamStorage::new(REGION, BLOCK_SIZE).expect("storage");
    let mut fs = Filesystem::new(storage, 0xAA).expect("format");
    for b in 1..=6u8 {
        fs.append(&payload(b)).expect("append");
    }
    let mut storage = fs.into_storage();

    // a torn write in the last data block: frame bytes whose stored
    // checksum does not match
    let mut factory = BlockFactory::new();
    factory.set_id(6);
    let mut frame = vec![0u8; BLOCK_SIZE];
    factory.create_with_writer(&mut frame, 0xAA, &payload(7));
    frame[0] ^= 0xFF;
    storage.write(7, &frame).expect("torn write");

    let mut fs = Filesystem::new(storage, 0xAA).expect("mount");
    assert_eq!(fs.next_blk_id(), 6, "the frame before the torn one is newest");
    assert_eq!(fs.offset(), 7);
    assert!(!fs.is_full());
    assert_eq!(read_back(&mut fs, 5).expect("read"), payload(6));
    match read_back(&mut fs, 6) {
        Err(Error::NotValidBlockForRead) => {}
        other => panic!("the torn block must not be read, got {:?}", other),
    }
}

#[test]
fn capacity_bound_keeps_last_ring_of_records() {
    let storage = RamStorage::new(REGION, BLOCK_SIZE).expect("storage");
    let mut fs = Filesystem::new(storage, 0xAA).expect("format");
    for b in 1..=10u8 {
        fs.append(&payload(b)).expect("append");
    }
    assert!(fs.is_full());
    assert_eq!(fs.next_blk_id(), 10);
    for i in 0..7usize {
        let expected = payload((i + 4) as u8);
        assert_eq!(read_back(&mut fs, i).expect("read"), expected, "offset {}", i);
    }
}

#[test]
fn frame_encode_decode() {
    let mut factory = BlockFactory::new();
    factory.get_next_id();
    factory.get_next_id();
    let mut frame = vec![0u8; BLOCK_SIZE];
    factory.create_with_writer(&mut frame, 0xDEADBEEF, &payload(0x42));
    let info = BlockInfo::from_buffer(&frame);
    assert!(info.is_valid);
    assert_eq!(info.fs_id, 0xDEADBEEF);
    assert_eq!(info.id, 2);
    assert_eq!(&frame[14..], &payload(0x42)[..]);

    let block = Block::from_buffer(&frame);
    assert!(block.is_valid());
    assert_eq!(block.id(), 2);
    assert_eq!(block.stored_crc(), Block::calculated_crc(&frame));

    // corrupting the stored checksum must invalidate the frame
    let mut corrupted = frame.clone();
    corrupted[0] ^= 0x01;
    let info = BlockInfo::from_buffer(&corrupted);
    assert!(!info.is_valid);
    assert_eq!(info.id, 0, "an invalid frame reports sequence id 0");
}

#[test]
fn error_conditions() {
    // the buffer cannot hold two blocks
    match RamStorage::new(BLOCK_SIZE, BLOCK_SIZE) {
        Err(Error::TooSmallBuffer) => {}
        other => panic!("expected TooSmallBuffer, got {:?}", other),
    }
    // the buffer is not a whole number of blocks
    match RamStorage::new(100, 24) {
        Err(Error::InvalidBlockSizeForStorage) => {}
        other => panic!("expected InvalidBlockSizeForStorage, got {:?}", other),
    }
    // block size below the frame header
    match RamStorage::new(256, 8) {
        Err(Error::InvalidBlockSizeForStorage) => {}
        other => panic!("expected InvalidBlockSizeForStorage, got {:?}", other),
    }

    let mut storage = RamStorage::new(REGION, BLOCK_SIZE).expect("storage");
    let mut buf = vec![0u8; BLOCK_SIZE];
    match storage.read(8, &mut buf) {
        Err(Error::BlockOutOfRange) => {}
        other => panic!("expected BlockOutOfRange, got {:?}", other),
    }
    let mut small = vec![0u8; BLOCK_SIZE - 1];
    match storage.read(0, &mut small) {
        Err(Error::NotEnoughSpaceForRead) => {}
        other => panic!("expected NotEnoughSpaceForRead, got {:?}", other),
    }
    match storage.write(0, &small) {
        Err(Error::DataLenNotEqualToBlockSize) => {}
        other => panic!("expected DataLenNotEqualToBlockSize, got {:?}", other),
    }

    // a region of two blocks leaves no room for a two-slot ring
    let storage = RamStorage::new(2 * BLOCK_SIZE, BLOCK_SIZE).expect("storage");
    match Filesystem::new(storage, 0xAA) {
        Err(Error::TooSmallFilesystem) => {}
        other => panic!("expected TooSmallFilesystem, got {:?}", other.map(|_| ())),
    }

    // a zeroed region has no valid config block to take the id from
    let storage = RamStorage::new(REGION, BLOCK_SIZE).expect("storage");
    match Filesystem::restore(storage) {
        Err(Error::InvalidHeaderBlock) => {}
        other => panic!("expected InvalidHeaderBlock, got {:?}", other.map(|_| ())),
    }

    // a 16-byte block cannot hold the 4-byte config payload
    let storage = RamStorage::new(4 * 16, 16).expect("storage");
    match Filesystem::new(storage, 0xAA) {
        Err(Error::CanNotWriteConfig) => {}
        other => panic!("expected CanNotWriteConfig, got {:?}", other.map(|_| ())),
    }
}
