//! Group descriptors.
use pengwin::block_device::MemoryDevice;
use pengwin::group_desc::{GroupDescError, GroupDescTable, RawGroupDesc};
use pengwin::superblock::Superblock;

fn make_sb(blocks_per_group: u32, total_blocks: u64, inodes_per_group: u32) -> Superblock {
    Superblock {
        block_size: 4096,
        blocks_count: total_blocks,
        inodes_count: inodes_per_group,
        inodes_per_group,
        blocks_per_group,
        first_data_block: 0,
        uuid: [0u8; 16],
        volume_name: String::new(),
        desc_size: 64,
        feature_incompat: 0,
        feature_ro_compat: 0,
        inode_size: 256,
        state: 0x0001,
    }
}

fn make_desc(
    block_bitmap: u32,
    inode_bitmap: u32,
    inode_table: u32,
    free_blocks: u16,
    free_inodes: u16,
) -> [u8; 64] {
    let mut d = [0u8; 64];
    d[0..4].copy_from_slice(&block_bitmap.to_le_bytes());
    d[4..8].copy_from_slice(&inode_bitmap.to_le_bytes());
    d[8..12].copy_from_slice(&inode_table.to_le_bytes());
    d[12..14].copy_from_slice(&free_blocks.to_le_bytes());
    d[14..16].copy_from_slice(&free_inodes.to_le_bytes());
    d
}

fn make_device_with_gdt(descs: &[[u8; 64]]) -> MemoryDevice {
    let mut data = vec![0u8; 8192];
    let mut off = 4096usize;
    for d in descs {
        data[off..off + 64].copy_from_slice(d);
        off += 64;
    }
    MemoryDevice::from_bytes(data)
}

#[test]
fn load_single_group() {
    let dev = make_device_with_gdt(&[make_desc(10, 11, 12, 500, 200)]);
    let sb = make_sb(32768, 32768, 256);
    let gdt = GroupDescTable::load(&dev, &sb).unwrap();
    assert_eq!(gdt.group_count(), 1);
    let g = gdt.get(0).unwrap();
    assert_eq!(g.block_bitmap, 10);
    assert_eq!(g.inode_bitmap, 11);
    assert_eq!(g.inode_table, 12);
    assert_eq!(g.free_blocks_count, 500);
    assert_eq!(g.free_inodes_count, 200);
}

#[test]
fn group_for_inode_first() {
    let dev = make_device_with_gdt(&[make_desc(10, 11, 12, 0, 0)]);
    let sb = make_sb(32768, 32768, 256);
    let gdt = GroupDescTable::load(&dev, &sb).unwrap();
    let g = gdt.group_for_inode(1, &sb).unwrap();
    assert_eq!(g.block_bitmap, 10);
}

#[test]
fn group_for_inode_boundary() {
    let dev = make_device_with_gdt(&[make_desc(10, 11, 12, 0, 0), make_desc(20, 21, 22, 0, 0)]);
    let sb = make_sb(32768, 65536, 256);
    let gdt = GroupDescTable::load(&dev, &sb).unwrap();
    let g0 = gdt.group_for_inode(256, &sb).unwrap();
    assert_eq!(g0.block_bitmap, 10);
    let g1 = gdt.group_for_inode(257, &sb).unwrap();
    assert_eq!(g1.block_bitmap, 20);
}

#[test]
fn group_for_inode_invalid() {
    let dev = make_device_with_gdt(&[make_desc(10, 11, 12, 0, 0)]);
    let sb = make_sb(32768, 32768, 256);
    let gdt = GroupDescTable::load(&dev, &sb).unwrap();
    let err = gdt.group_for_inode(0, &sb).unwrap_err();
    assert!(matches!(err, GroupDescError::InvalidInode(0)));
}

#[test]
fn zero_blocks_per_group_returns_error() {
    let sb = make_sb(0, 1024, 256);
    let dev = MemoryDevice::from_bytes(vec![0u8; 8192]);
    let err = GroupDescTable::load(&dev, &sb).unwrap_err();
    assert!(matches!(err, GroupDescError::TooManyGroups(_)));
}

#[test]
fn out_of_range() {
    let dev = make_device_with_gdt(&[make_desc(10, 11, 12, 0, 0)]);
    let sb = make_sb(32768, 32768, 256);
    let gdt = GroupDescTable::load(&dev, &sb).unwrap();
    let err = gdt.get(1).unwrap_err();
    assert!(matches!(err, GroupDescError::OutOfRange(1, 1)));
}

#[test]
fn the_high_halves_count() {
    let mut d = make_desc(10, 11, 12, 500, 200);
    d[32..36].copy_from_slice(&1u32.to_le_bytes());
    d[44..46].copy_from_slice(&2u16.to_le_bytes());
    let raw = RawGroupDesc::read_from(&d).unwrap();
    assert_eq!(raw.bg_block_bitmap_lo, 10);
    let gdt =
        GroupDescTable::load(&make_device_with_gdt(&[d]), &make_sb(32768, 32768, 256)).unwrap();
    assert_eq!(gdt.get(0).unwrap().block_bitmap, 0x1_0000_000A);
    assert_eq!(gdt.get(0).unwrap().free_blocks_count, 0x2_01F4);
}

#[test]
fn counts_follow_and_stop_at_their_bounds() {
    let dev = make_device_with_gdt(&[make_desc(10, 11, 12, 5, 2)]);
    let mut gdt = GroupDescTable::load(&dev, &make_sb(32768, 32768, 256)).unwrap();
    gdt.adjust_free_blocks(0, -3).unwrap();
    gdt.adjust_free_inodes(0, 4).unwrap();
    assert_eq!(gdt.get(0).unwrap().free_blocks_count, 2);
    assert_eq!(gdt.get(0).unwrap().free_inodes_count, 6);
    gdt.adjust_free_blocks(0, -3).unwrap();
    assert_eq!(gdt.get(0).unwrap().free_blocks_count, 0);
    assert!(matches!(
        gdt.adjust_free_blocks(1, 1),
        Err(GroupDescError::OutOfRange(1, 1))
    ));
}
