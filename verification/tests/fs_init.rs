use appendfs::block::{Block, BlockFactory, BlockInfo};
use appendfs::fs::Filesystem;
use appendfs::storage::RamStorage;

const FS_ID: u32 = 522285587;

#[test]
fn test_fs_init() {
    const BLOCK_SIZE: usize = 128;
    const BLOCK_COUNT: usize = 512;
    const SIZE: usize = BLOCK_SIZE * BLOCK_COUNT;
    // first block is fs config block
    const AVAILABLE_BLOCK_COUNT: usize = BLOCK_COUNT - 1;
    const AVAILABLE_SIZE: usize = BLOCK_SIZE * AVAILABLE_BLOCK_COUNT;

    const DATA_SIZE: usize = BLOCK_SIZE - 14;

    let mut storage = RamStorage::new(SIZE, BLOCK_SIZE).expect("Can't create storage for test_fs_full");

    {
        let first_block = BlockInfo::from_buffer(&storage.data[..BLOCK_SIZE].to_vec());
        assert!(
            !first_block.is_valid,
            "First block must not be valid, it contains invalid crc!"
        );
    }

    {
        let fs = Filesystem::new(storage, FS_ID).expect("Can't create fs for test_fs_empty");
        assert_eq!(
            fs.offset(),
            1,
            "Storage has no writes, offset must be eq to 1 (0 is config block, next is 1)"
        );
        storage = fs.into_storage();
    }

    let begin_id = 42;
    let mut factory = BlockFactory::new();
    factory.set_id(begin_id);

    let mut fill: u8 = 0;

    // fill n-th block,
    // first AVAILABLE_BLOCK_COUNT iterations test offset initialization for not full storage.
    // next 2 * AVAILABLE_BLOCK_COUNT iterations test offset initialization for full storage after wraparound
    for i in 0..AVAILABLE_BLOCK_COUNT * 3 {
        // first block is fs config block, so add 1 block offset
        let begin = (i * BLOCK_SIZE) % AVAILABLE_SIZE + BLOCK_SIZE;
        let end = begin + BLOCK_SIZE;

        let mut frame = vec![0_u8; BLOCK_SIZE];
        let payload = vec![fill; DATA_SIZE];
        fill = if fill == u8::MAX { 0 } else { fill + 1 };
        factory.create_with_writer(&mut frame, FS_ID, &payload);
        storage.data[begin..end].copy_from_slice(&frame);

        let cur_id = begin_id + i as u64;
        let blk = Block::from_buffer(&frame);
        assert_eq!(blk.id(), cur_id);

        {
            let fs = Filesystem::new(storage, FS_ID).expect("Can't create fs for test_fs_full");
            // first block is skipped so always add 1 to expected offset
            let expected_offset = 1 + (i + 1) % AVAILABLE_BLOCK_COUNT;
            assert_eq!(fs.offset(), expected_offset);

            assert_eq!(fs.next_blk_id(), cur_id + 1);
            storage = fs.into_storage();
        }
    }

    const NEW_BLOCKS: usize = 35;
    const NEW_FS_ID: u32 = 1585159336;

    // init new blocks with new fs id
    for b in 0..NEW_BLOCKS {
        let begin = b * BLOCK_SIZE;
        let end = begin + BLOCK_SIZE;
        let mut block_data = storage.data[begin..end].to_vec();
        // write different fs id to first blocks
        Block::set_fs_id(&mut block_data, NEW_FS_ID);
        Block::set_crc(&mut block_data);
        storage.data[begin..end].copy_from_slice(&block_data);
    }

    // validate storage blocks were actually initialized and they are valid
    for b in 0..AVAILABLE_BLOCK_COUNT {
        let begin = b * BLOCK_SIZE;
        let end = begin + BLOCK_SIZE;
        let block = BlockInfo::from_buffer(&storage.data[begin..end].to_vec());
        assert!(block.is_valid, "Block {} must be valid after write!", b);

        if b < NEW_BLOCKS {
            assert_eq!(
                block.fs_id, NEW_FS_ID,
                "First blocks must be init with new fs id"
            );
        } else {
            assert_eq!(
                block.fs_id, FS_ID,
                "Last blocks must be init with old fs id"
            );
        }
    }

    {
        let fs = Filesystem::new(storage, NEW_FS_ID).expect("Can't create fs for new blocks");
        assert_eq!(
            fs.offset(),
            NEW_BLOCKS,
            "Storage was initialized, offset must be after last new block, old blocks must be skipped during fs init"
        );
    }
}
