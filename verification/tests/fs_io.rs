use appendfs::error::Error;
use appendfs::fs::Filesystem;
use appendfs::storage::RamStorage;
use appendfs::utils::slices_are_equal;

const FS_ID: u32 = 522285587;

#[test]
fn test_fs_io() {
    const BLOCK_SIZE: usize = 128;
    const BLOCK_COUNT: usize = 80;
    const SIZE: usize = BLOCK_SIZE * BLOCK_COUNT;
    // first block is fs config block
    const AVAILABLE_BLOCK_COUNT: usize = BLOCK_COUNT - 1;
    const AVAILABLE_SIZE: usize = BLOCK_SIZE * AVAILABLE_BLOCK_COUNT;

    const DATA_SIZE: usize = BLOCK_SIZE - 14;

    let mut storage = RamStorage::new(SIZE, BLOCK_SIZE).expect("Can't create storage for test_fs_full");

    // write n-th block,
    // first BLOCK_COUNT iterations test IO for not full storage.
    // next 2 * BLOCK_COUNT iterations test IO for full storage after wraparound
    for i in 0..AVAILABLE_BLOCK_COUNT * 3 {
        // first block is fs config block, so add 1 block offset, to get block end add additional 1 block offset
        let end = (i * BLOCK_SIZE) % AVAILABLE_SIZE + 2 * BLOCK_SIZE;
        let begin = end - DATA_SIZE;
        let mut expected_data = vec![0_u8; DATA_SIZE];
        expected_data.copy_from_slice(&storage.data[begin..end]);

        let mut fs = Filesystem::new(storage, FS_ID).expect("Can't create fs for test_fs_full");

        if i == 0 {
            assert!(fs.is_empty(), "Before first write fs must be empty!");
        } else {
            assert!(
                !fs.is_empty(),
                "After first write fs must be non empty! i: {}",
                i
            );
        }

        if i < AVAILABLE_BLOCK_COUNT {
            assert!(
                !fs.is_full(),
                "Fs can't be full before AVAILABLE_BLOCK_COUNT writes, i: {}",
                i
            );
        } else {
            assert!(
                fs.is_full(),
                "Fs must be full after AVAILABLE_BLOCK_COUNT writes, i: {}",
                i
            );
        }

        // read the oldest block, that will be overwritten
        let blk_offset = if i >= AVAILABLE_BLOCK_COUNT { 0 } else { i };
        let mut blk_data = vec![0_u8; DATA_SIZE];
        let read_before = fs.read(blk_offset, &mut blk_data);
        if read_before.is_ok() {
            assert!(
                slices_are_equal(&expected_data[..], &blk_data[..]),
                "Wrong data was read at i: {}, {:?} vs {:?}",
                i,
                &expected_data[..],
                &blk_data[..]
            );
        }

        match read_before {
            Ok(_) => {
                assert!(
                    i >= AVAILABLE_BLOCK_COUNT,
                    "Data must be read only after wraparound, i: {}",
                    i
                );
            }
            Err(Error::NotValidBlockForRead) => {
                assert!(
                    i < AVAILABLE_BLOCK_COUNT,
                    "Data must not be read before wraparound, i: {}",
                    i
                );
            }
            Err(e) => {
                assert!(false, "Err read data before write at i: {}, err: {:?}", i, e);
            }
        }

        assert!(
            i < u8::MAX as usize,
            "I will be wrapped around, can't continue test."
        );

        let fill_value = (i + 1) as u8;
        let payload = vec![fill_value; DATA_SIZE];
        let write = fs.append(&payload);
        assert!(write.is_ok(), "Err write data i: {}, err: {:?}", i, write);

        let expected_data = vec![fill_value; DATA_SIZE];

        const LAST_WRITE_BEFORE_FS_BECOME_FULL: usize = AVAILABLE_BLOCK_COUNT - 1;
        let blk_offset = if i < LAST_WRITE_BEFORE_FS_BECOME_FULL {
            assert!(!fs.is_full(), "Fs must not be full after write {}", i);
            i
        } else {
            assert!(fs.is_full(), "Fs must be full after write {}", i);
            AVAILABLE_BLOCK_COUNT - 1
        };
        let mut after_data = vec![0_u8; DATA_SIZE];
        let read_after = fs.read(blk_offset, &mut after_data);
        if read_after.is_ok() {
            assert!(
                slices_are_equal(&expected_data[..], &after_data[..]),
                "Wrong data was read after write at i: {}, {:?} vs {:?}",
                i,
                &expected_data[..],
                &after_data[..]
            );
        }
        assert!(
            read_after.is_ok(),
            "Err read data after write at i: {}, err: {:?}",
            i,
            read_after
        );

        storage = fs.into_storage();
    }
}
