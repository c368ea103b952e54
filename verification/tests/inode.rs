//! Inodes, and changing them.
use pengwin::block_device::MemoryDevice;
use pengwin::group_desc::{GroupDesc, GroupDescTable};
use pengwin::inode::{mode, read_inode, read_inode_with_txn, FileType, InodeError, RawInode};
use pengwin::inode_write::{update_inode, InodeUpdate, InodeWriteError};
use pengwin::journal::writer::Transaction;
use pengwin::superblock::Superblock;

fn make_sb(inode_size: u16) -> Superblock {
    Superblock {
        block_size: 4096,
        blocks_count: 8192,
        inodes_count: 256,
        inodes_per_group: 256,
        blocks_per_group: 8192,
        first_data_block: 0,
        uuid: [0u8; 16],
        volume_name: String::new(),
        desc_size: 64,
        feature_incompat: 0,
        feature_ro_compat: 0,
        inode_size,
        state: 0x0001,
    }
}

fn table(inode_table: u64) -> GroupDescTable {
    GroupDescTable::from_groups(vec![GroupDesc {
        block_bitmap: 3,
        inode_bitmap: 4,
        inode_table,
        free_blocks_count: 0,
        free_inodes_count: 0,
        itable_unused: 0,
    }])
}

fn make_device_with_inodes(
    inodes: &[(u32, [u8; 128])],
    inode_size: u16,
) -> (MemoryDevice, GroupDescTable) {
    let mut data = vec![0u8; 40960];
    for (idx, raw) in inodes {
        let off = 5 * 4096 + *idx as usize * inode_size as usize;
        data[off..off + 128].copy_from_slice(raw);
    }
    (MemoryDevice::from_bytes(data), table(5))
}

fn make_raw_inode(mode: u16, size: u64, flags: u32, dtime: u32) -> [u8; 128] {
    let mut r = [0u8; 128];
    r[0..2].copy_from_slice(&mode.to_le_bytes());
    r[4..8].copy_from_slice(&(size as u32).to_le_bytes());
    r[20..24].copy_from_slice(&dtime.to_le_bytes());
    r[26..28].copy_from_slice(&1u16.to_le_bytes());
    r[32..36].copy_from_slice(&flags.to_le_bytes());
    r[108..112].copy_from_slice(&((size >> 32) as u32).to_le_bytes());
    r
}

#[test]
fn read_root_inode() {
    let raw = make_raw_inode(mode::S_IFDIR | 0o755, 4096, 0x80000, 0);
    let (dev, gdt) = make_device_with_inodes(&[(1, raw)], 256);
    let sb = make_sb(256);
    let inode = read_inode(&dev, &sb, &gdt, 2).unwrap();
    assert!(inode.is_dir());
    assert_eq!(inode.size, 4096);
}

#[test]
fn read_regular_file_inode() {
    let size: u64 = (5u64 << 32) | 0xDEAD_BEEF;
    let raw = make_raw_inode(mode::S_IFREG | 0o644, size, 0x80000, 0);
    let (dev, gdt) = make_device_with_inodes(&[(0, raw)], 256);
    let sb = make_sb(256);
    let inode = read_inode(&dev, &sb, &gdt, 1).unwrap();
    assert!(inode.is_file());
    assert_eq!(inode.size, size);
}

#[test]
fn inode_zero_invalid() {
    let (dev, gdt) = make_device_with_inodes(&[], 256);
    let sb = make_sb(256);
    let err = read_inode(&dev, &sb, &gdt, 0).unwrap_err();
    assert!(matches!(err, InodeError::OutOfRange(0, _)));
}

#[test]
fn uses_extents_flag() {
    let raw = make_raw_inode(mode::S_IFREG, 0, 0x80000, 0);
    let (dev, gdt) = make_device_with_inodes(&[(0, raw)], 256);
    let sb = make_sb(256);
    let inode = read_inode(&dev, &sb, &gdt, 1).unwrap();
    assert!(inode.uses_extents());

    let raw2 = make_raw_inode(mode::S_IFREG, 0, 0, 0);
    let (dev2, gdt2) = make_device_with_inodes(&[(0, raw2)], 256);
    let inode2 = read_inode(&dev2, &sb, &gdt2, 1).unwrap();
    assert!(!inode2.uses_extents());
}

#[test]
fn deleted_inodes_are_not_read() {
    let raw = make_raw_inode(mode::S_IFREG, 0, 0x80000, 5);
    let (dev, gdt) = make_device_with_inodes(&[(0, raw)], 256);
    let sb = make_sb(256);
    assert!(matches!(read_inode(&dev, &sb, &gdt, 1), Err(InodeError::Deleted(1))));
    assert!(matches!(read_inode(&dev, &sb, &gdt, 257), Err(InodeError::OutOfRange(257, 256))));
}

#[test]
fn modes_tell_the_type() {
    let sb = make_sb(128);
    for (m, t) in [
        (mode::S_IFREG, FileType::Regular),
        (mode::S_IFDIR, FileType::Directory),
        (mode::S_IFLNK, FileType::Symlink),
        (mode::S_IFIFO, FileType::Other),
    ] {
        let (dev, gdt) = make_device_with_inodes(&[(3, make_raw_inode(m | 0o7, 0, 0, 0))], 128);
        assert_eq!(read_inode(&dev, &sb, &gdt, 4).unwrap().file_type(), t);
    }
}

fn make_env() -> (MemoryDevice, Superblock, GroupDescTable) {
    let mut data = vec![0u8; 10 * 4096];
    let raw = make_raw_inode(0o100644, 1024, 0x80000, 0);
    data[2 * 4096..2 * 4096 + 128].copy_from_slice(&raw);
    let raw2 = make_raw_inode(0o100644, 0, 0, 0);
    data[2 * 4096 + 256..2 * 4096 + 384].copy_from_slice(&raw2);
    let mut sb = make_sb(256);
    sb.blocks_count = 80;
    (MemoryDevice::from_bytes(data), sb, table(2))
}

#[test]
fn update_inode_size() {
    let (dev, sb, gdt) = make_env();
    let mut txn = Transaction::new(1);

    update_inode(
        &dev,
        &sb,
        &gdt,
        &mut txn,
        1,
        InodeUpdate::default().with_size(8192).with_mtime(12345),
    )
    .unwrap();

    assert_eq!(txn.pinned_blocks().len(), 1);
    let (phys_block, block_data) = &txn.pinned_blocks()[0];
    assert_eq!(*phys_block, 2);

    let raw = RawInode::read_from(&block_data[0..128]).unwrap();
    assert_eq!(raw.i_size_lo, 8192u32);
    assert_eq!(raw.i_mtime, 12345u32);
}

#[test]
fn update_inode_links_count() {
    let (dev, sb, gdt) = make_env();
    let mut txn = Transaction::new(1);

    update_inode(&dev, &sb, &gdt, &mut txn, 1, InodeUpdate::default().with_links_count(3))
        .unwrap();

    let (_, block_data) = &txn.pinned_blocks()[0];
    let raw = RawInode::read_from(&block_data[0..128]).unwrap();
    assert_eq!(raw.i_links_count, 3u16);
}

#[test]
fn updates_to_two_inodes_in_same_block_are_preserved() {
    let (dev, sb, gdt) = make_env();
    let mut txn = Transaction::new(1);

    update_inode(&dev, &sb, &gdt, &mut txn, 1, InodeUpdate::default().with_ctime(0xAAAA_AAAA))
        .unwrap();
    update_inode(&dev, &sb, &gdt, &mut txn, 2, InodeUpdate::default().with_ctime(0xBBBB_BBBB))
        .unwrap();

    let (_, latest) = txn.pinned_blocks().last().unwrap();
    let raw1 = RawInode::read_from(&latest[0..128]).unwrap();
    let raw2 = RawInode::read_from(&latest[256..256 + 128]).unwrap();
    assert_eq!(raw1.i_ctime, 0xAAAA_AAAA);
    assert_eq!(raw2.i_ctime, 0xBBBB_BBBB);
}

#[test]
fn an_update_is_seen_inside_its_transaction() {
    let (dev, sb, gdt) = make_env();
    let mut txn = Transaction::new(1);
    let update = InodeUpdate::default()
        .with_size(0x5_0000_0001)
        .with_mode(0o100600)
        .with_uid(0x0007_0008)
        .with_gid(0x0009_000A)
        .with_atime(1)
        .with_flags(0x80001);
    update_inode(&dev, &sb, &gdt, &mut txn, 1, update).unwrap();
    let inode = read_inode_with_txn(&dev, &sb, &gdt, &txn, 1).unwrap();
    assert_eq!(inode.size, 0x5_0000_0001);
    assert_eq!((inode.mode, inode.uid, inode.gid), (0o100600, 0x0007_0008, 0x0009_000A));
    assert_eq!((inode.atime, inode.links_count, inode.flags), (1, 1, 0x80001));
    assert_eq!(read_inode(&dev, &sb, &gdt, 1).unwrap().size, 1024);
    assert!(matches!(
        update_inode(&dev, &sb, &gdt, &mut txn, 0, InodeUpdate::default()),
        Err(InodeWriteError::OutOfRange(0, 256))
    ));
}
