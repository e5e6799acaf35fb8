use pyarraypool::shm::ShmError;
use pyarraypool::shm::ShmHeader;
use pyarraypool::shm::ShmObjectPoolBuilder;
use pyarraypool::shm::SHM_VERSION;

#[test]
fn test_valid() {
    let mut header = ShmHeader::new(10);
    assert_eq!(header.valid(), Ok(()));

    header.version = SHM_VERSION + 1;
    assert_eq!(header.valid(), Err(ShmError::InvalidShmVersion));

    header.magic = 0x00;
    assert_eq!(header.valid(), Err(ShmError::InvalidShmMagicValue));
}

#[test]
fn test_builder_configuration() {
    let builder = ShmObjectPoolBuilder::new();
    assert_eq!(builder.slot_count, 10_000);
    assert_eq!(builder.data_size, 512 * 1024 * 1024);
    assert_eq!(builder.segment_path, "/dev/shm/obj_pool.seg");

    let builder = ShmObjectPoolBuilder::new()
        .slot_count(4)
        .data_size(20 * 1024)
        .segment_path("test_pool.seg");
    assert_eq!(builder.slot_count, 4);
    assert_eq!(builder.data_size, 20 * 1024);
    assert_eq!(builder.segment_path, "test_pool.seg");
}
