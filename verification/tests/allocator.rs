//! Bitmaps, and the allocation of blocks and inodes.
use pengwin::allocator::block_bitmap::BlockBitmap;
use pengwin::allocator::inode_bitmap::InodeBitmap;
use pengwin::allocator::{block_alloc, inode_alloc, AllocError, Allocator};
use pengwin::block_device::MemoryDevice;
use pengwin::group_desc::{GroupDesc, GroupDescError, GroupDescTable};
use pengwin::inode::{read_inode, RawInode};
use pengwin::journal::writer::Transaction;
use pengwin::superblock::Superblock;

fn make_bitmap(data: Vec<u8>) -> BlockBitmap {
    BlockBitmap::from_bytes(data, 0)
}

#[test]
fn is_allocated_basic() {
    let bm = make_bitmap(vec![0b00000001, 0xFF]);
    assert!(bm.is_allocated(0));
    assert!(!bm.is_allocated(1));
    assert!(bm.is_allocated(8));
    assert!(bm.is_allocated(15));
}

#[test]
fn allocate_and_free() {
    let mut bm = make_bitmap(vec![0u8; 4]);
    assert!(bm.allocate(3));
    assert!(bm.is_allocated(3));
    assert!(!bm.allocate(3), "double-allocate should return false");
    assert!(bm.free(3));
    assert!(!bm.is_allocated(3));
    assert!(!bm.free(3), "double-free should return false");
    assert_eq!(bm.as_bytes(), &[0u8; 4]);
}

#[test]
fn first_free_all_zero() {
    let bm = make_bitmap(vec![0u8; 4]);
    assert_eq!(bm.first_free(), Some(0));
}

#[test]
fn first_free_full() {
    let bm = make_bitmap(vec![0xFF; 4]);
    assert_eq!(bm.first_free(), None);
}

#[test]
fn first_free_partial() {
    let bm = make_bitmap(vec![0xFF, 0b11111110, 0x00]);
    assert_eq!(bm.first_free(), Some(8));
}

#[test]
fn first_free_run_contiguous() {
    let mut bm = make_bitmap(vec![0u8; 16]);
    bm.allocate(0);
    bm.allocate(1);
    bm.allocate(2);
    bm.allocate(3);
    assert_eq!(bm.first_free_run(4, 128), Some(4));
}

#[test]
fn runs_do_not_reach_past_the_group() {
    let bm = make_bitmap(vec![0b0000_1111, 0b0000_0001]);
    assert_eq!(bm.first_free_run(4, 16), Some(4));
    assert_eq!(bm.first_free_run(5, 16), Some(9));
    assert_eq!(bm.first_free_run(8, 16), None);
    assert_eq!(bm.first_free_run(4, 7), None);
}

#[test]
fn allocate_and_free_inode() {
    let mut bm = InodeBitmap::from_bytes(vec![0u8; 4]);
    assert!(bm.allocate(5));
    assert!(bm.is_allocated(5));
    assert!(!bm.allocate(5));
    assert!(bm.free(5));
    assert!(!bm.is_allocated(5));
    assert!(!bm.free(5));
}

#[test]
fn first_free_inode() {
    let bm = InodeBitmap::from_bytes(vec![0xFF, 0b00000001, 0x00]);
    assert_eq!(bm.first_free(), Some(9));
}

fn make_sb(blocks_per_group: u32, inodes_per_group: u32) -> Superblock {
    Superblock {
        block_size: 4096,
        blocks_count: (blocks_per_group as u64) * 2,
        inodes_count: inodes_per_group * 2,
        inodes_per_group,
        blocks_per_group,
        first_data_block: 0,
        uuid: [0u8; 16],
        volume_name: String::new(),
        desc_size: 64,
        feature_incompat: 0,
        feature_ro_compat: 0,
        inode_size: 128,
        state: 0x0001,
    }
}

fn make_gdt_and_dev(
    blocks_per_group: u32,
    inodes_per_group: u32,
    block_bitmaps: (u64, u64),
    inode_bitmaps: (u64, u64),
    inode_tables: (u64, u64),
) -> (MemoryDevice, GroupDescTable) {
    let dev_size = (blocks_per_group as u64) * 2 * 4096;
    let dev = MemoryDevice::from_bytes(vec![0u8; dev_size as usize]);
    let groups = vec![
        GroupDesc {
            block_bitmap: block_bitmaps.0,
            inode_bitmap: inode_bitmaps.0,
            inode_table: inode_tables.0,
            free_blocks_count: blocks_per_group,
            free_inodes_count: inodes_per_group,
            itable_unused: 0,
        },
        GroupDesc {
            block_bitmap: block_bitmaps.1,
            inode_bitmap: inode_bitmaps.1,
            inode_table: inode_tables.1,
            free_blocks_count: blocks_per_group,
            free_inodes_count: inodes_per_group,
            itable_unused: 0,
        },
    ];
    (dev, GroupDescTable::from_groups(groups))
}

fn big() -> (MemoryDevice, GroupDescTable, Superblock) {
    let (dev, gdt) = make_gdt_and_dev(128, 32, (0, 128), (1, 129), (2, 130));
    (dev, gdt, make_sb(128, 32))
}

#[test]
fn alloc_and_free_block() {
    let (mut dev, mut gdt, sb) = big();
    let mut txn = Transaction::new(1);

    let block = block_alloc::alloc_blocks(&mut dev, &sb, &mut gdt, &mut txn, 1, 0).unwrap();
    let group = (block / sb.blocks_per_group as u64) as usize;
    let bit = (block % sb.blocks_per_group as u64) as u32;
    let bm = BlockBitmap::load(&dev, &sb, &gdt, group).unwrap();
    assert!(bm.is_allocated(bit));
    assert_eq!(gdt.get(group).unwrap().free_blocks_count, 127);

    block_alloc::free_block(&mut dev, &sb, &mut gdt, &mut txn, block).unwrap();
    let bm2 = BlockBitmap::load(&dev, &sb, &gdt, group).unwrap();
    assert!(!bm2.is_allocated(bit));
    assert_eq!(gdt.get(group).unwrap().free_blocks_count, 128);
}

#[test]
fn alloc_fills_group() {
    let blocks_per_group = 64u32;
    let (mut dev, mut gdt) = make_gdt_and_dev(blocks_per_group, 32, (0, 64), (1, 65), (2, 66));
    let sb = make_sb(blocks_per_group, 32);

    for _ in 0..blocks_per_group {
        let mut txn = Transaction::new(1);
        block_alloc::alloc_blocks(&mut dev, &sb, &mut gdt, &mut txn, 1, 0).unwrap();
    }
    let mut txn = Transaction::new(1);
    let result = block_alloc::alloc_blocks(&mut dev, &sb, &mut gdt, &mut txn, 1, 0);
    assert!(result.is_ok(), "should fall back to group 1");
}

#[test]
fn alloc_falls_back_to_next_group() {
    let blocks_per_group = 32u32;
    let (mut dev, mut gdt) = make_gdt_and_dev(blocks_per_group, 16, (0, 32), (1, 33), (2, 34));
    let sb = make_sb(blocks_per_group, 16);

    for _ in 0..blocks_per_group {
        let mut txn = Transaction::new(1);
        block_alloc::alloc_blocks(&mut dev, &sb, &mut gdt, &mut txn, 1, 0).unwrap();
    }

    let mut txn = Transaction::new(1);
    let block = block_alloc::alloc_blocks(&mut dev, &sb, &mut gdt, &mut txn, 1, 0).unwrap();
    assert!(block >= blocks_per_group as u64, "block should be in group 1");
}

#[test]
fn double_free_block() {
    let (mut dev, mut gdt, sb) = big();

    let mut txn = Transaction::new(1);
    let block = block_alloc::alloc_blocks(&mut dev, &sb, &mut gdt, &mut txn, 1, 0).unwrap();
    block_alloc::free_block(&mut dev, &sb, &mut gdt, &mut txn, block).unwrap();
    let err = block_alloc::free_block(&mut dev, &sb, &mut gdt, &mut txn, block).unwrap_err();
    assert!(matches!(err, AllocError::DoubleFreed(_)));
}

#[test]
fn alloc_inode_sequential() {
    let (mut dev, mut gdt, sb) = big();

    let mut txn = Transaction::new(1);
    let i1 = inode_alloc::alloc_inode(&mut dev, &sb, &mut gdt, &mut txn, false, 0).unwrap();
    let i2 = inode_alloc::alloc_inode(&mut dev, &sb, &mut gdt, &mut txn, false, 0).unwrap();
    let i3 = inode_alloc::alloc_inode(&mut dev, &sb, &mut gdt, &mut txn, false, 0).unwrap();

    assert!(i1 >= 1);
    assert_ne!(i1, i2);
    assert_ne!(i2, i3);
    assert_eq!(i2, i1 + 1);
    assert_eq!(i3, i1 + 2);
}

#[test]
fn init_inode_fields() {
    let (mut dev, mut gdt, sb) = big();

    let mut txn = Transaction::new(1);
    let inum = inode_alloc::alloc_inode(&mut dev, &sb, &mut gdt, &mut txn, false, 0).unwrap();
    inode_alloc::init_inode(&mut dev, &sb, &gdt, &mut txn, inum, 0o100644, 1000, 1000).unwrap();

    assert!(!txn.pinned_blocks().is_empty(), "init_inode must pin a block");
    let group = ((inum - 1) / sb.inodes_per_group) as usize;
    let desc = gdt.get(group).unwrap();
    let inode_table_block = desc.inode_table;
    let pinned = txn.pinned_blocks().iter().find(|(b, _)| *b == inode_table_block).unwrap();
    let idx_in_group = ((inum - 1) % sb.inodes_per_group) as usize;
    let off = idx_in_group * sb.inode_size as usize;
    let raw = RawInode::read_from(&pinned.1[off..off + 128]).unwrap();
    assert_eq!(raw.i_mode, 0o100644);
    assert_eq!(raw.i_uid, 1000);
    assert_eq!(raw.i_links_count, 1);
    assert_ne!(raw.i_ctime, 0);
    assert_ne!(raw.i_flags & 0x80000, 0);
}

#[test]
fn free_inode_sets_dtime() {
    let (mut dev, mut gdt, sb) = big();

    let mut txn = Transaction::new(1);
    let inum = inode_alloc::alloc_inode(&mut dev, &sb, &mut gdt, &mut txn, false, 0).unwrap();
    inode_alloc::init_inode(&mut dev, &sb, &gdt, &mut txn, inum, 0o100644, 0, 0).unwrap();

    inode_alloc::free_inode(&mut dev, &sb, &mut gdt, &mut txn, inum).unwrap();

    let group = ((inum - 1) / sb.inodes_per_group) as usize;
    let desc = gdt.get(group).unwrap();
    let inode_table_block = desc.inode_table;
    let pinned = txn.pinned_blocks().iter().rev().find(|(b, _)| *b == inode_table_block).unwrap();
    let idx_in_group = ((inum - 1) % sb.inodes_per_group) as usize;
    let off = idx_in_group * sb.inode_size as usize;
    let raw = RawInode::read_from(&pinned.1[off..off + 128]).unwrap();
    assert_ne!(raw.i_dtime, 0, "i_dtime should be set after free_inode");
}

#[test]
fn alloc_fails_when_disk_full() {
    let blocks_per_group = 32u32;
    let (mut dev, mut gdt) = make_gdt_and_dev(blocks_per_group, 16, (0, 32), (1, 33), (2, 34));
    let sb = make_sb(blocks_per_group, 16);

    for _ in 0..blocks_per_group * 2 {
        let mut txn = Transaction::new(1);
        let _ = block_alloc::alloc_blocks(&mut dev, &sb, &mut gdt, &mut txn, 1, 0);
    }

    let mut txn = Transaction::new(1);
    let err = block_alloc::alloc_blocks(&mut dev, &sb, &mut gdt, &mut txn, 1, 0).unwrap_err();
    assert!(matches!(err, AllocError::NoFreeBlocks), "expected NoFreeBlocks, got {err:?}");
}

#[test]
fn alloc_journaled() {
    let (mut dev, mut gdt, sb) = big();
    let mut txn = Transaction::new(1);

    block_alloc::alloc_blocks(&mut dev, &sb, &mut gdt, &mut txn, 1, 0).unwrap();
    assert!(
        !txn.pinned_blocks().is_empty(),
        "alloc_blocks must pin bitmap block into transaction"
    );
}

#[test]
fn inodes_run_out() {
    let (mut dev, mut gdt, sb) = big();
    let mut txn = Transaction::new(1);
    let mut alloc = Allocator::new(&sb, &mut gdt);
    for n in 1..=64u32 {
        // The bitmap of a group has room for more inodes than the group has, so
        // the counts decide.
        assert!(alloc.alloc_inode(&mut dev, &mut txn, false, 0).unwrap() >= n.min(32));
    }
    assert!(matches!(
        alloc.alloc_inode(&mut dev, &mut txn, false, 0),
        Err(AllocError::NoFreeInodes)
    ));
    assert_eq!(alloc.gdt_ref().get(0).unwrap().free_inodes_count, 0);
    assert_eq!(alloc.sb_ref().inodes_per_group, 32);
}

#[test]
fn a_freed_inode_can_be_had_again() {
    let (mut dev, mut gdt, sb) = big();
    let mut txn = Transaction::new(1);
    let mut alloc = Allocator::new(&sb, &mut gdt);
    let a = alloc.alloc_inode(&mut dev, &mut txn, false, 1).unwrap();
    assert_eq!(a, 33);
    alloc.free_inode(&mut dev, &mut txn, a).unwrap();
    assert_eq!(alloc.alloc_inode(&mut dev, &mut txn, false, 1).unwrap(), a);
}

#[test]
fn blocks_are_given_out_once() {
    let (mut dev, mut gdt, sb) = big();
    let mut txn = Transaction::new(1);
    let mut alloc = Allocator::new(&sb, &mut gdt);
    let a = alloc.alloc_blocks(&mut dev, &mut txn, 3, 0).unwrap();
    let b = alloc.alloc_blocks(&mut dev, &mut txn, 3, 0).unwrap();
    assert_eq!((a, b), (0, 3));
    alloc.free_block(&mut dev, &mut txn, 1).unwrap();
    assert!(matches!(
        alloc.free_block(&mut dev, &mut txn, 1),
        Err(AllocError::DoubleFreed(1))
    ));
    assert_eq!(alloc.alloc_blocks(&mut dev, &mut txn, 1, 0).unwrap(), 1);
    assert!(matches!(
        alloc.free_block(&mut dev, &mut txn, 256),
        Err(AllocError::GroupDesc(GroupDescError::OutOfRange(2, 2)))
    ));
}

#[test]
fn a_new_inode_has_the_time_it_was_given() {
    let (mut dev, mut gdt, sb) = big();
    let mut txn = Transaction::new(1);
    inode_alloc::init_inode_at(
        &mut dev, &sb, &gdt, &mut txn, 5, 0o100600, 0x0001_0002, 0x0003_0004, 77,
    )
    .unwrap();
    let off = 2 * 4096 + 4 * 128;
    let raw = RawInode::read_from(&dev.contents()[off..off + 128]).unwrap();
    assert_eq!((raw.i_atime, raw.i_ctime, raw.i_mtime), (77, 77, 77));
    assert_eq!((raw.i_uid, raw.i_uid_hi), (2, 1));
    assert_eq!((raw.i_gid, raw.i_gid_hi), (4, 3));
    assert_eq!(raw.i_block[..8], [0x0A, 0xF3, 0, 0, 4, 0, 0, 0]);
    inode_alloc::free_inode_at(&mut dev, &sb, &mut gdt, &mut txn, 5, 99).unwrap();
    let raw = RawInode::read_from(&dev.contents()[off..off + 128]).unwrap();
    assert_eq!(raw.i_dtime, 99);
}

#[test]
fn groups_start_at_the_first_data_block() {
    let (mut dev, mut gdt, sb) = big();
    let sb = Superblock { first_data_block: 1, ..sb };
    let mut txn = Transaction::new(1);
    let a = block_alloc::alloc_blocks(&mut dev, &sb, &mut gdt, &mut txn, 1, 0).unwrap();
    let b = block_alloc::alloc_blocks(&mut dev, &sb, &mut gdt, &mut txn, 1, 128).unwrap();
    assert_eq!((a, b), (1, 129));
    assert!(BlockBitmap::load(&dev, &sb, &gdt, 0).unwrap().is_allocated(0));
    assert!(BlockBitmap::load(&dev, &sb, &gdt, 1).unwrap().is_allocated(0));
    block_alloc::free_block(&mut dev, &sb, &mut gdt, &mut txn, b).unwrap();
    assert!(!BlockBitmap::load(&dev, &sb, &gdt, 1).unwrap().is_allocated(0));
    assert!(matches!(
        block_alloc::free_block(&mut dev, &sb, &mut gdt, &mut txn, 0),
        Err(AllocError::DoubleFreed(0))
    ));
}

#[test]
fn a_new_directory_has_two_links() {
    let (mut dev, gdt, sb) = big();
    let mut txn = Transaction::new(1);
    for (num, mode, links) in [(3u32, 0o040755u16, 2u16), (4, 0o100644, 1), (5, 0o120777, 1)] {
        inode_alloc::init_inode_at(&mut dev, &sb, &gdt, &mut txn, num, mode, 0, 0, 9).unwrap();
        assert_eq!(read_inode(&dev, &sb, &gdt, num).unwrap().links_count, links);
    }
}
