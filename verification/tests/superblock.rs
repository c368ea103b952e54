//! The superblock.
use pengwin::block_device::MemoryDevice;
use pengwin::journal::mount::{clear_dirty_flag, set_dirty_flag};
use pengwin::journal::writer::Transaction;
use pengwin::superblock::{incompat, parse, state, RawSuperblock, Superblock, SuperblockError};
use pengwin::superblock_write::update_superblock;

fn put16(s: &mut [u8], off: usize, v: u16) {
    s[off..off + 2].copy_from_slice(&v.to_le_bytes());
}

fn put32(s: &mut [u8], off: usize, v: u32) {
    s[off..off + 4].copy_from_slice(&v.to_le_bytes());
}

fn make_device(sb: &[u8]) -> MemoryDevice {
    let mut data = vec![0u8; 2048];
    data[1024..2048].copy_from_slice(sb);
    MemoryDevice::from_bytes(data)
}

fn valid_sb() -> Vec<u8> {
    let mut sb = vec![0u8; 1024];
    put32(&mut sb, 0, 1024);
    put32(&mut sb, 4, 8192);
    put32(&mut sb, 20, 0);
    put32(&mut sb, 24, 2);
    put32(&mut sb, 32, 32768);
    put32(&mut sb, 40, 256);
    put16(&mut sb, 56, 0xEF53);
    put32(&mut sb, 96, incompat::EXTENTS | incompat::FILETYPE);
    sb[120..127].copy_from_slice(b"testvol");
    put16(&mut sb, 254, 64);
    sb
}

#[test]
fn parse_valid_ext4() {
    let parsed = parse(&make_device(&valid_sb())).unwrap();
    assert_eq!(parsed.block_size, 4096);
    assert_eq!(parsed.inodes_count, 1024);
    assert_eq!(parsed.volume_name, "testvol");
}

#[test]
fn superblock_bad_magic() {
    let mut sb = valid_sb();
    put16(&mut sb, 56, 0x1234);
    let err = parse(&make_device(&sb)).unwrap_err();
    assert!(matches!(err, SuperblockError::BadMagic(0x1234)));
}

#[test]
fn unsupported_features() {
    let mut sb = valid_sb();
    put32(&mut sb, 96, incompat::EXTENTS | incompat::FILETYPE | incompat::ENCRYPT);
    let err = parse(&make_device(&sb)).unwrap_err();
    assert!(
        matches!(err, SuperblockError::UnsupportedFeatures(f) if f & incompat::ENCRYPT != 0)
    );
}

#[test]
fn volume_name_trimmed() {
    let mut sb = valid_sb();
    sb[120..136].copy_from_slice(b"myfs\x00\x00\x00\x00\x00\x00\x00\x00\x00\x00\x00\x00");
    let parsed = parse(&make_device(&sb)).unwrap();
    assert_eq!(parsed.volume_name, "myfs");
}

#[test]
fn invalid_log_block_size() {
    let mut sb = valid_sb();
    put32(&mut sb, 24, 7);
    let err = parse(&make_device(&sb)).unwrap_err();
    assert!(matches!(err, SuperblockError::InvalidBlockSize(7)));
}

#[test]
fn invalid_inode_size_too_large() {
    let mut sb = valid_sb();
    put32(&mut sb, 64, 1);
    put16(&mut sb, 88, 2048);
    let err = parse(&make_device(&sb)).unwrap_err();
    assert!(matches!(err, SuperblockError::InvalidInodeSize(2048)));
}

#[test]
fn invalid_inode_size_not_power_of_two() {
    let mut sb = valid_sb();
    put32(&mut sb, 64, 1);
    put16(&mut sb, 88, 300);
    let err = parse(&make_device(&sb)).unwrap_err();
    assert!(matches!(err, SuperblockError::InvalidInodeSize(300)));
}

#[test]
fn invalid_geometry_zero_inodes_per_group() {
    let mut sb = valid_sb();
    put32(&mut sb, 40, 0);
    let err = parse(&make_device(&sb)).unwrap_err();
    assert!(matches!(err, SuperblockError::InvalidGeometry));
}

#[test]
fn invalid_geometry_zero_blocks_per_group() {
    let mut sb = valid_sb();
    put32(&mut sb, 32, 0);
    let err = parse(&make_device(&sb)).unwrap_err();
    assert!(matches!(err, SuperblockError::InvalidGeometry));
}

#[test]
fn blocks_count_hi_combined() {
    let mut sb = valid_sb();
    put32(&mut sb, 4, 0x0000_0001);
    put32(&mut sb, 336, 0x0000_0001);
    let parsed = parse(&make_device(&sb)).unwrap();
    assert_eq!(parsed.blocks_count, 0x0000_0001_0000_0001u64);
}

#[test]
fn a_short_device_has_no_superblock() {
    let dev = MemoryDevice::from_bytes(vec![0u8; 1024]);
    assert!(matches!(parse(&dev), Err(SuperblockError::BlockDevice(_))));
}

fn make_dev_with_sb(state_val: u16) -> MemoryDevice {
    let mut sb = valid_sb();
    put16(&mut sb, 58, state_val);
    make_device(&sb)
}

#[test]
fn set_dirty_flag_clears_valid_fs() {
    let mut dev = make_dev_with_sb(state::VALID_FS);
    let sb = parse(&dev).unwrap();
    assert!(sb.was_cleanly_unmounted());

    set_dirty_flag(&mut dev, &sb).unwrap();

    let sb2 = parse(&dev).unwrap();
    assert!(!sb2.was_cleanly_unmounted(), "VALID_FS should be cleared after set_dirty_flag");
}

#[test]
fn clear_dirty_flag_sets_valid_fs() {
    let mut dev = make_dev_with_sb(0);
    let sb = parse(&dev).unwrap();
    assert!(!sb.was_cleanly_unmounted());

    clear_dirty_flag(&mut dev, &sb).unwrap();

    let sb2 = parse(&dev).unwrap();
    assert!(sb2.was_cleanly_unmounted(), "VALID_FS should be set after clear_dirty_flag");
}

#[test]
fn error_fs_state_detected() {
    let dev = make_dev_with_sb(state::ERROR_FS);
    let sb = parse(&dev).unwrap();
    assert!(sb.state_has_error());
    assert!(!sb.was_cleanly_unmounted());
}

#[test]
fn state_has_error_false_for_valid_fs() {
    let dev = make_dev_with_sb(state::VALID_FS);
    let sb = parse(&dev).unwrap();
    assert!(!sb.state_has_error());
}

#[test]
fn update_superblock_pins_block() {
    let mut data = vec![0u8; 8 * 512];
    put16(&mut data, 1024 + 56, 0xEF53);
    put32(&mut data, 1024 + 12, 1000);
    put32(&mut data, 1024 + 16, 200);
    let dev = MemoryDevice::from_bytes(data);
    let sb = Superblock {
        block_size: 4096,
        blocks_count: 8192,
        inodes_count: 256,
        inodes_per_group: 256,
        blocks_per_group: 8192,
        first_data_block: 0,
        uuid: [0u8; 16],
        volume_name: String::new(),
        desc_size: 64,
        feature_incompat: 0,
        feature_ro_compat: 0,
        inode_size: 256,
        state: 0x0001,
    };
    let mut txn = Transaction::new(1);
    update_superblock(&dev, &sb, &mut txn, 500, 100, 99999).unwrap();

    assert_eq!(txn.pinned_blocks().len(), 1);
    let (blk, data) = &txn.pinned_blocks()[0];
    assert_eq!(*blk, 0);

    let raw = RawSuperblock::read_from(&data[1024..2048]).unwrap();
    assert_eq!(raw.s_free_blocks_count_lo, 500u32);
    assert_eq!(raw.s_free_inodes_count, 100u32);
    assert_eq!(data[1024 + 48..1024 + 52], 99999u32.to_le_bytes());
    assert_eq!(raw.s_magic, 0xEF53);
}
