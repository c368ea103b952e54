//! Extent trees.
use pengwin::allocator::Allocator;
use pengwin::block_device::{read_block, write_block, MemoryDevice};
use pengwin::extent::{lookup_block, ExtentError, ExtentIter};
use pengwin::extent_write::{extent_append, extent_leaf_split, extent_truncate};
use pengwin::group_desc::{GroupDesc, GroupDescTable};
use pengwin::inode::{mode, read_inode, Inode, RawInode};
use pengwin::journal::writer::Transaction;
use pengwin::superblock::Superblock;

const EXTENT_MAGIC: u16 = 0xF30A;

fn le16(b: &[u8], o: usize) -> u16 {
    u16::from_le_bytes([b[o], b[o + 1]])
}

fn le32(b: &[u8], o: usize) -> u32 {
    u32::from_le_bytes([b[o], b[o + 1], b[o + 2], b[o + 3]])
}

fn phys_of(b: &[u8], leaf: usize) -> u64 {
    (le16(b, leaf + 6) as u64) << 32 | le32(b, leaf + 8) as u64
}

fn child_of(b: &[u8], idx: usize) -> u64 {
    (le16(b, idx + 8) as u64) << 32 | le32(b, idx + 4) as u64
}

fn header(entries: u16, max: u16, depth: u16) -> [u8; 12] {
    let mut h = [0u8; 12];
    h[0..2].copy_from_slice(&EXTENT_MAGIC.to_le_bytes());
    h[2..4].copy_from_slice(&entries.to_le_bytes());
    h[4..6].copy_from_slice(&max.to_le_bytes());
    h[6..8].copy_from_slice(&depth.to_le_bytes());
    h
}

fn make_leaf(ee_block: u32, ee_len: u16, phys_start: u64) -> [u8; 12] {
    let mut l = [0u8; 12];
    l[0..4].copy_from_slice(&ee_block.to_le_bytes());
    l[4..6].copy_from_slice(&ee_len.to_le_bytes());
    l[6..8].copy_from_slice(&((phys_start >> 32) as u16).to_le_bytes());
    l[8..12].copy_from_slice(&(phys_start as u32).to_le_bytes());
    l
}

fn make_idx(ei_block: u32, child: u64) -> [u8; 12] {
    let mut i = [0u8; 12];
    i[0..4].copy_from_slice(&ei_block.to_le_bytes());
    i[4..8].copy_from_slice(&(child as u32).to_le_bytes());
    i[8..10].copy_from_slice(&((child >> 32) as u16).to_le_bytes());
    i
}

fn make_root_with_leaves(leaves: &[[u8; 12]]) -> [u8; 60] {
    let mut data = [0u8; 60];
    data[..12].copy_from_slice(&header(leaves.len() as u16, 4, 0));
    for (i, leaf) in leaves.iter().enumerate() {
        data[12 + i * 12..24 + i * 12].copy_from_slice(leaf);
    }
    data
}

fn make_sb() -> Superblock {
    Superblock {
        block_size: 4096,
        blocks_count: 1024,
        inodes_count: 256,
        inodes_per_group: 256,
        blocks_per_group: 1024,
        first_data_block: 0,
        uuid: [0u8; 16],
        volume_name: String::new(),
        desc_size: 64,
        feature_incompat: 0,
        feature_ro_compat: 0,
        inode_size: 256,
        state: 0x0001,
    }
}

fn make_inode_with_block_data(block_data: [u8; 60], uses_extents: bool, size: u64) -> Inode {
    Inode {
        mode: mode::S_IFREG,
        uid: 0,
        gid: 0,
        size,
        atime: 0,
        mtime: 0,
        ctime: 0,
        links_count: 1,
        flags: if uses_extents { 0x80000 } else { 0 },
        block_data,
    }
}

#[test]
fn lookup_single_extent() {
    let leaf = make_leaf(0, 8, 100);
    let inode = make_inode_with_block_data(make_root_with_leaves(&[leaf]), true, 8 * 4096);
    let dev = MemoryDevice::from_bytes(vec![0u8; 512]);
    let sb = make_sb();
    assert_eq!(lookup_block(&dev, &sb, &inode, 3).unwrap(), Some(103));
    assert_eq!(lookup_block(&dev, &sb, &inode, 0).unwrap(), Some(100));
    assert_eq!(lookup_block(&dev, &sb, &inode, 7).unwrap(), Some(107));
}

#[test]
fn lookup_multi_extent() {
    let leaf0 = make_leaf(0, 4, 50);
    let leaf1 = make_leaf(10, 4, 200);
    let inode =
        make_inode_with_block_data(make_root_with_leaves(&[leaf0, leaf1]), true, 14 * 4096);
    let dev = MemoryDevice::from_bytes(vec![0u8; 512]);
    let sb = make_sb();
    assert_eq!(lookup_block(&dev, &sb, &inode, 2).unwrap(), Some(52));
    assert_eq!(lookup_block(&dev, &sb, &inode, 11).unwrap(), Some(201));
}

#[test]
fn lookup_out_of_range() {
    let leaf = make_leaf(0, 4, 50);
    let inode = make_inode_with_block_data(make_root_with_leaves(&[leaf]), true, 4 * 4096);
    let dev = MemoryDevice::from_bytes(vec![0u8; 512]);
    let sb = make_sb();
    assert_eq!(lookup_block(&dev, &sb, &inode, 10).unwrap(), None);
}

#[test]
fn depth_one_tree() {
    let sb = make_sb();
    let child_block: u64 = 2;
    let mut device_data = vec![0u8; 32 * 512];
    let child = child_block as usize * 4096;
    device_data[child..child + 12].copy_from_slice(&header(1, 340, 0));
    device_data[child + 12..child + 24].copy_from_slice(&make_leaf(0, 8, 100));

    let mut root_data = [0u8; 60];
    root_data[..12].copy_from_slice(&header(1, 4, 1));
    root_data[12..24].copy_from_slice(&make_idx(0, child_block));

    let inode = make_inode_with_block_data(root_data, true, 8 * 4096);
    let dev = MemoryDevice::from_bytes(device_data);
    assert_eq!(lookup_block(&dev, &sb, &inode, 5).unwrap(), Some(105));
}

#[test]
fn uninitialized_extent() {
    let leaf = make_leaf(0, 33000, 100);
    let inode = make_inode_with_block_data(make_root_with_leaves(&[leaf]), true, 8 * 4096);
    let dev = MemoryDevice::from_bytes(vec![0u8; 512]);
    let sb = make_sb();
    assert_eq!(lookup_block(&dev, &sb, &inode, 0).unwrap(), None);
}

#[test]
fn trees_that_are_not_sound_are_refused() {
    let dev = MemoryDevice::from_bytes(vec![0u8; 16 * 4096]);
    let sb = make_sb();
    let old = make_inode_with_block_data([0u8; 60], false, 4096);
    assert!(matches!(
        lookup_block(&dev, &sb, &old, 0),
        Err(ExtentError::UnsupportedBlockMap)
    ));
    let blank = make_inode_with_block_data([0u8; 60], true, 4096);
    assert!(matches!(lookup_block(&dev, &sb, &blank, 0), Err(ExtentError::BadMagic(0))));
    let mut root = [0u8; 60];
    root[..12].copy_from_slice(&header(5, 5, 0));
    let full = make_inode_with_block_data(root, true, 4096);
    assert!(matches!(lookup_block(&dev, &sb, &full, 0), Err(ExtentError::TruncatedNode)));
    root[..12].copy_from_slice(&header(1, 4, 6));
    let deep = make_inode_with_block_data(root, true, 4096);
    assert!(matches!(
        lookup_block(&dev, &sb, &deep, 0),
        Err(ExtentError::DepthExceeded(6))
    ));
}

#[test]
fn an_iterator_walks_every_block_of_the_file() {
    let leaves = [make_leaf(2, 1, 60), make_leaf(0, 1, 50)];
    let inode = make_inode_with_block_data(make_root_with_leaves(&leaves), true, 4 * 4096);
    let dev = MemoryDevice::from_bytes(vec![0u8; 512]);
    let sb = make_sb();
    let mut it = ExtentIter::new(&dev, &sb, &inode).unwrap();
    let mut seen = Vec::new();
    while let Some(r) = it.next() {
        seen.push(r.unwrap());
    }
    assert_eq!(seen, vec![(0, Some(50)), (1, None), (2, Some(60)), (3, None)]);
}

fn make_env() -> (MemoryDevice, Superblock, GroupDescTable) {
    let bpg: u32 = 128;
    let ipg: u32 = 32;
    let mut raw = vec![0u8; (bpg * 2) as usize * 4096];
    raw[0] |= 0b0000_0111;
    raw[128 * 4096] |= 0b0000_0111;
    let sb = Superblock {
        block_size: 4096,
        blocks_count: (bpg * 2) as u64,
        inodes_count: ipg * 2,
        inodes_per_group: ipg,
        blocks_per_group: bpg,
        first_data_block: 0,
        uuid: [0u8; 16],
        volume_name: String::new(),
        desc_size: 64,
        feature_incompat: 0,
        feature_ro_compat: 0,
        inode_size: 128,
        state: 0x0001,
    };
    let group = |b: u64| GroupDesc {
        block_bitmap: b,
        inode_bitmap: b + 1,
        inode_table: b + 2,
        free_blocks_count: bpg - 3,
        free_inodes_count: ipg,
        itable_unused: 0,
    };
    (MemoryDevice::from_bytes(raw), sb, GroupDescTable::from_groups(vec![group(0), group(128)]))
}

fn write_test_inode(
    dev: &mut MemoryDevice,
    sb: &Superblock,
    gdt: &GroupDescTable,
    inode_num: u32,
    block_data: [u8; 60],
) {
    let group = ((inode_num - 1) / sb.inodes_per_group) as usize;
    let idx_in_group = ((inode_num - 1) % sb.inodes_per_group) as usize;
    let block = gdt.get(group).unwrap().inode_table;
    let mut table = read_block(dev, sb.block_size, block).unwrap();
    let off = idx_in_group * 128;
    table[off..off + 128].fill(0);
    table[off..off + 2].copy_from_slice(&0o100644u16.to_le_bytes());
    table[off + 26..off + 28].copy_from_slice(&1u16.to_le_bytes());
    table[off + 32..off + 36].copy_from_slice(&0x80000u32.to_le_bytes());
    table[off + 40..off + 100].copy_from_slice(&block_data);
    write_block(dev, sb.block_size, block, &table).unwrap();
}

fn empty_root() -> [u8; 60] {
    let mut d = [0u8; 60];
    d[..12].copy_from_slice(&header(0, 4, 0));
    d
}

fn read_root(
    dev: &MemoryDevice,
    sb: &Superblock,
    gdt: &GroupDescTable,
    inode_num: u32,
) -> [u8; 60] {
    let group = ((inode_num - 1) / sb.inodes_per_group) as usize;
    let idx_in_group = ((inode_num - 1) % sb.inodes_per_group) as usize;
    let off =
        gdt.get(group).unwrap().inode_table as usize * sb.block_size as usize + idx_in_group * 128;
    RawInode::read_from(&dev.contents()[off..off + 128]).unwrap().i_block
}

#[test]
fn append_to_empty_file() {
    let (mut dev, sb, mut gdt) = make_env();
    write_test_inode(&mut dev, &sb, &gdt, 1, empty_root());
    let mut txn = Transaction::new(1);
    let mut alloc = Allocator::new(&sb, &mut gdt);
    extent_append(&mut dev, &sb, &mut txn, 1, 500, 1, &mut alloc).unwrap();

    let bd = read_root(&dev, &sb, &gdt, 1);
    assert_eq!(le16(&bd, 2), 1);
    assert_eq!(le32(&bd, 12), 0);
    assert_eq!(le16(&bd, 16), 1);
    assert_eq!(phys_of(&bd, 12), 500);
}

#[test]
fn append_contiguous_coalesces_into_one_extent() {
    let (mut dev, sb, mut gdt) = make_env();
    write_test_inode(&mut dev, &sb, &gdt, 1, empty_root());
    let mut txn = Transaction::new(1);
    let mut alloc = Allocator::new(&sb, &mut gdt);

    for i in 0..10u64 {
        extent_append(&mut dev, &sb, &mut txn, 1, 500 + i, 1, &mut alloc).unwrap();
    }
    let bd = read_root(&dev, &sb, &gdt, 1);
    assert_eq!(le16(&bd, 6), 0, "should not have grown");
    assert_eq!(le16(&bd, 2), 1, "all 10 blocks should fold into one extent");
    assert_eq!(le32(&bd, 12), 0);
    assert_eq!(le16(&bd, 16), 10);
    assert_eq!(phys_of(&bd, 12), 500);
}

#[test]
fn append_stops_coalescing_at_max_extent_len() {
    let (mut dev, sb, mut gdt) = make_env();
    write_test_inode(&mut dev, &sb, &gdt, 1, empty_root());
    let mut txn = Transaction::new(1);
    let mut alloc = Allocator::new(&sb, &mut gdt);

    extent_append(&mut dev, &sb, &mut txn, 1, 1000, 32768u16, &mut alloc).unwrap();
    extent_append(&mut dev, &sb, &mut txn, 1, 1000 + 32768, 1, &mut alloc).unwrap();
    let bd = read_root(&dev, &sb, &gdt, 1);
    assert_eq!(
        le16(&bd, 2),
        2,
        "second append should start a fresh leaf entry once the first hits ee_len max"
    );
    assert_eq!(le16(&bd, 16), 32768);
    assert_eq!(le16(&bd, 28), 1);
    assert_eq!(le32(&bd, 24), 32768);
}

#[test]
fn append_fills_root() {
    let (mut dev, sb, mut gdt) = make_env();
    write_test_inode(&mut dev, &sb, &gdt, 1, empty_root());
    let mut txn = Transaction::new(1);
    let mut alloc = Allocator::new(&sb, &mut gdt);
    for i in 0..4u16 {
        extent_append(&mut dev, &sb, &mut txn, 1, 500 + i as u64 * 10, 1, &mut alloc).unwrap();
    }
    let bd = read_root(&dev, &sb, &gdt, 1);
    assert_eq!(le16(&bd, 2), 4);
    for i in 0..4usize {
        assert_eq!(le32(&bd, 12 + i * 12), i as u32);
    }
}

#[test]
fn append_triggers_grow() {
    let (mut dev, sb, mut gdt) = make_env();
    write_test_inode(&mut dev, &sb, &gdt, 1, empty_root());
    let mut txn = Transaction::new(1);
    let mut alloc = Allocator::new(&sb, &mut gdt);
    for i in 0..5u64 {
        extent_append(&mut dev, &sb, &mut txn, 1, 500 + i * 10, 1, &mut alloc).unwrap();
    }
    let bd = read_root(&dev, &sb, &gdt, 1);
    assert_eq!(le16(&bd, 6), 1, "tree should have grown to depth 1");
}

#[test]
fn append_after_grow() {
    let (mut dev, sb, mut gdt) = make_env();
    write_test_inode(&mut dev, &sb, &gdt, 1, empty_root());
    let mut txn = Transaction::new(1);
    let mut alloc = Allocator::new(&sb, &mut gdt);
    for i in 0..6u64 {
        extent_append(&mut dev, &sb, &mut txn, 1, 500 + i * 10, 1, &mut alloc).unwrap();
    }
    let bd = read_root(&dev, &sb, &gdt, 1);
    assert_eq!(le16(&bd, 6), 1);
    let child = read_block(&dev, 4096, child_of(&bd, 12)).unwrap();
    assert!(le16(&child, 2) > 0);
    assert_eq!(le16(&child, 2), 6);
}

#[test]
fn split_full_leaf() {
    let (mut dev, sb, mut gdt) = make_env();
    let max = ((sb.block_size - 12) / 12) as u16;
    let mut setup_txn = Transaction::new(1);
    let leaf_phys = {
        let mut alloc = Allocator::new(&sb, &mut gdt);
        alloc.alloc_blocks(&mut dev, &mut setup_txn, 1, 0).unwrap()
    };

    let mut leaf_data = vec![0u8; sb.block_size as usize];
    leaf_data[..12].copy_from_slice(&header(max, max, 0));
    for i in 0..max as usize {
        leaf_data[12 + i * 12..24 + i * 12]
            .copy_from_slice(&make_leaf(i as u32, 1, 1000 + i as u64));
    }
    write_block(&mut dev, 4096, leaf_phys, &leaf_data).unwrap();

    let mut root_data = vec![0u8; 60];
    root_data[..12].copy_from_slice(&header(1, 4, 1));
    root_data[12..24].copy_from_slice(&make_idx(0, leaf_phys));

    let mut txn = Transaction::new(2);
    let new_block = extent_leaf_split(
        &mut dev, &sb, &mut gdt, &mut txn, leaf_phys, leaf_phys, leaf_data, &mut root_data,
    )
    .unwrap();

    let old_entries = le16(&read_block(&dev, 4096, leaf_phys).unwrap(), 2);
    let new_entries = le16(&read_block(&dev, 4096, new_block).unwrap(), 2);
    assert!(old_entries > 0);
    assert!(new_entries > 0);
    assert_eq!(old_entries + new_entries, max);
    assert_eq!(le16(&root_data, 2), 2);
}

#[test]
fn truncate_partial() {
    let (mut dev, sb, mut gdt) = make_env();
    write_test_inode(&mut dev, &sb, &gdt, 1, empty_root());
    let mut txn = Transaction::new(1);
    {
        let mut alloc = Allocator::new(&sb, &mut gdt);
        for _ in 0..10 {
            let phys = alloc.alloc_blocks(&mut dev, &mut txn, 1, 0).unwrap();
            extent_append(&mut dev, &sb, &mut txn, 1, phys, 1, &mut alloc).unwrap();
        }
    }
    let mut txn2 = Transaction::new(2);
    {
        let mut alloc = Allocator::new(&sb, &mut gdt);
        extent_truncate(&mut dev, &sb, &mut alloc, &mut txn2, 1, 5).unwrap();
    }
    let bd = read_root(&dev, &sb, &gdt, 1);
    assert_eq!(le16(&bd, 6), 0);
    let total: u32 = (0..le16(&bd, 2) as usize)
        .map(|i| {
            let raw_len = le16(&bd, 16 + i * 12);
            if raw_len > 32768 {
                (raw_len - 32768) as u32
            } else {
                raw_len as u32
            }
        })
        .sum();
    assert!(total <= 5, "should have at most 5 blocks, got {total}");
    assert_eq!(total, 5);
    assert_eq!(gdt.get(0).unwrap().free_blocks_count, 120);
}

#[test]
fn truncate_full() {
    let (mut dev, sb, mut gdt) = make_env();
    write_test_inode(&mut dev, &sb, &gdt, 1, empty_root());
    let mut txn = Transaction::new(1);
    {
        let mut alloc = Allocator::new(&sb, &mut gdt);
        for _ in 0..4 {
            let phys = alloc.alloc_blocks(&mut dev, &mut txn, 1, 0).unwrap();
            extent_append(&mut dev, &sb, &mut txn, 1, phys, 1, &mut alloc).unwrap();
        }
    }
    let mut txn2 = Transaction::new(2);
    {
        let mut alloc = Allocator::new(&sb, &mut gdt);
        extent_truncate(&mut dev, &sb, &mut alloc, &mut txn2, 1, 0).unwrap();
    }
    let bd = read_root(&dev, &sb, &gdt, 1);
    assert_eq!(le16(&bd, 2), 0);
}

#[test]
fn truncate_across_internal_nodes() {
    let (mut dev, sb, mut gdt) = make_env();
    write_test_inode(&mut dev, &sb, &gdt, 1, empty_root());
    let mut txn = Transaction::new(1);
    {
        let mut alloc = Allocator::new(&sb, &mut gdt);
        for _ in 0..5 {
            let phys = alloc.alloc_blocks(&mut dev, &mut txn, 1, 0).unwrap();
            extent_append(&mut dev, &sb, &mut txn, 1, phys, 1, &mut alloc).unwrap();
        }
    }
    let mut txn2 = Transaction::new(2);
    {
        let mut alloc = Allocator::new(&sb, &mut gdt);
        extent_truncate(&mut dev, &sb, &mut alloc, &mut txn2, 1, 0).unwrap();
    }
    let bd = read_root(&dev, &sb, &gdt, 1);
    assert_eq!(le16(&bd, 2), 0);
}

#[test]
fn truncating_a_deep_tree_frees_every_block() {
    let (mut dev, sb, mut gdt) = make_env();
    write_test_inode(&mut dev, &sb, &gdt, 1, empty_root());
    let mut txn = Transaction::new(1);
    {
        let mut alloc = Allocator::new(&sb, &mut gdt);
        for _ in 0..6 {
            // A gap behind each block keeps the extents apart.
            let phys = alloc.alloc_blocks(&mut dev, &mut txn, 2, 0).unwrap();
            extent_append(&mut dev, &sb, &mut txn, 1, phys, 1, &mut alloc).unwrap();
            alloc.free_block(&mut dev, &mut txn, phys).unwrap();
            let again = alloc.alloc_blocks(&mut dev, &mut txn, 1, 0).unwrap();
            assert_eq!(again, phys);
        }
    }
    let bd = read_root(&dev, &sb, &gdt, 1);
    assert_eq!(le16(&bd, 6), 1);
    let before = gdt.get(0).unwrap().free_blocks_count;
    let mut txn2 = Transaction::new(2);
    {
        let mut alloc = Allocator::new(&sb, &mut gdt);
        extent_truncate(&mut dev, &sb, &mut alloc, &mut txn2, 1, 0).unwrap();
    }
    // Six data blocks, and the inner node.
    assert_eq!(gdt.get(0).unwrap().free_blocks_count, before + 7);
    let bd = read_root(&dev, &sb, &gdt, 1);
    assert_eq!((le16(&bd, 2), le16(&bd, 4), le16(&bd, 6)), (0, 4, 0));

    // The emptied file can be written again.
    let mut alloc = Allocator::new(&sb, &mut gdt);
    extent_append(&mut dev, &sb, &mut txn2, 1, 700, 2, &mut alloc).unwrap();
    let bd = read_root(&dev, &sb, &gdt, 1);
    assert_eq!((le16(&bd, 2), le16(&bd, 6)), (1, 0));
    assert_eq!((le32(&bd, 12), le16(&bd, 16), phys_of(&bd, 12)), (0, 2, 700));
}

#[test]
fn a_leaf_of_which_nothing_is_left_goes() {
    let (mut dev, sb, mut gdt) = make_env();
    let mut txn = Transaction::new(1);
    let mut alloc = Allocator::new(&sb, &mut gdt);
    let leaf = alloc.alloc_blocks(&mut dev, &mut txn, 1, 0).unwrap();
    let data = alloc.alloc_blocks(&mut dev, &mut txn, 1, 0).unwrap();
    let mut node = vec![0u8; 4096];
    node[..12].copy_from_slice(&header(1, 340, 0));
    node[12..24].copy_from_slice(&make_leaf(50, 1, data));
    write_block(&mut dev, 4096, leaf, &node).unwrap();
    let mut root = [0u8; 60];
    root[..12].copy_from_slice(&header(1, 4, 1));
    root[12..24].copy_from_slice(&make_idx(0, leaf));
    write_test_inode(&mut dev, &sb, &gdt, 1, root);
    let before = gdt.get(0).unwrap().free_blocks_count;
    let mut alloc = Allocator::new(&sb, &mut gdt);
    extent_truncate(&mut dev, &sb, &mut alloc, &mut txn, 1, 3).unwrap();
    assert_eq!(gdt.get(0).unwrap().free_blocks_count, before + 2);
    let bd = read_root(&dev, &sb, &gdt, 1);
    assert_eq!((le16(&bd, 2), le16(&bd, 6)), (0, 0));
}

#[test]
fn appending_behind_a_full_leaf_under_a_full_root_keeps_the_rest() {
    let (mut dev, sb, mut gdt) = make_env();
    let mut txn = Transaction::new(1);
    let mut alloc = Allocator::new(&sb, &mut gdt);
    let mut root = [0u8; 60];
    root[..12].copy_from_slice(&header(4, 4, 1));
    for k in 0..4u32 {
        let leaf = alloc.alloc_blocks(&mut dev, &mut txn, 1, 0).unwrap();
        let n = if k == 3 { 340 } else { 1 };
        let mut node = vec![0u8; 4096];
        node[..12].copy_from_slice(&header(n, 340, 0));
        for i in 0..n as usize {
            let l = 1000 * k + i as u32;
            node[12 + 12 * i..24 + 12 * i].copy_from_slice(&make_leaf(l, 1, 5000 + 2 * l as u64));
        }
        write_block(&mut dev, 4096, leaf, &node).unwrap();
        let at = 12 + 12 * k as usize;
        root[at..at + 12].copy_from_slice(&make_idx(1000 * k, leaf));
    }
    write_test_inode(&mut dev, &sb, &gdt, 1, root);
    let mut alloc = Allocator::new(&sb, &mut gdt);
    extent_append(&mut dev, &sb, &mut txn, 1, 90_000, 1, &mut alloc).unwrap();
    let bd = read_root(&dev, &sb, &gdt, 1);
    assert_eq!(le16(&bd, 6), 2);
    let inode = read_inode(&dev, &sb, &gdt, 1).unwrap();
    for l in (0..3).map(|k| 1000 * k).chain(3000..3340) {
        assert_eq!(lookup_block(&dev, &sb, &inode, l).unwrap(), Some(5000 + 2 * l), "block {l}");
    }
    assert_eq!(lookup_block(&dev, &sb, &inode, 3340).unwrap(), Some(90_000));
    assert_eq!(lookup_block(&dev, &sb, &inode, 3341).unwrap(), None);
}

#[test]
fn appended_blocks_and_nodes_are_counted() {
    let (mut dev, sb, mut gdt) = make_env();
    write_test_inode(&mut dev, &sb, &gdt, 1, empty_root());
    let mut txn = Transaction::new(1);
    let mut alloc = Allocator::new(&sb, &mut gdt);
    for (i, sectors) in [8u32, 16, 24, 32, 48, 56].into_iter().enumerate() {
        extent_append(&mut dev, &sb, &mut txn, 1, 500 + i as u64 * 10, 1, &mut alloc).unwrap();
        assert_eq!(le32(&dev.contents()[2 * 4096..], 28), sectors);
    }
}

#[test]
fn a_full_leaf_deep_in_a_tree_is_split_below_its_parent() {
    let (mut dev, sb, mut gdt) = make_env();
    let mut txn = Transaction::new(1);
    let mut alloc = Allocator::new(&sb, &mut gdt);
    let leaf = alloc.alloc_blocks(&mut dev, &mut txn, 1, 0).unwrap();
    let inner = alloc.alloc_blocks(&mut dev, &mut txn, 1, 0).unwrap();
    let max: u16 = 340;
    let mut node = vec![0u8; 4096];
    node[..12].copy_from_slice(&header(max, max, 0));
    for i in 0..max as usize {
        let l = make_leaf(i as u32, 1, 1000 + 2 * i as u64);
        node[12 + 12 * i..24 + 12 * i].copy_from_slice(&l);
    }
    write_block(&mut dev, 4096, leaf, &node).unwrap();
    let mut node = vec![0u8; 4096];
    node[..12].copy_from_slice(&header(1, max, 1));
    node[12..24].copy_from_slice(&make_idx(0, leaf));
    write_block(&mut dev, 4096, inner, &node).unwrap();
    let mut root = [0u8; 60];
    root[..12].copy_from_slice(&header(1, 4, 2));
    root[12..24].copy_from_slice(&make_idx(0, inner));
    write_test_inode(&mut dev, &sb, alloc.gdt_ref(), 1, root);

    extent_append(&mut dev, &sb, &mut txn, 1, 5000, 1, &mut alloc).unwrap();
    let bd = read_root(&dev, &sb, &gdt, 1);
    assert_eq!((le16(&bd, 2), le16(&bd, 6)), (1, 2));
    let node = read_block(&dev, 4096, inner).unwrap();
    assert_eq!((le16(&node, 2), le16(&node, 6)), (2, 1));
    let inode = make_inode_with_block_data(bd, true, 341 * 4096);
    for l in 0..340u64 {
        assert_eq!(lookup_block(&dev, &sb, &inode, l).unwrap(), Some(1000 + 2 * l));
    }
    assert_eq!(lookup_block(&dev, &sb, &inode, 340).unwrap(), Some(5000));
    assert_eq!(lookup_block(&dev, &sb, &inode, 341).unwrap(), None);
}
