//! Changing directories.
use pengwin::allocator::Allocator;
use pengwin::block_device::{write_block, BlockDevice, MemoryDevice};
use pengwin::dir::{lookup, read_dir};
use pengwin::dir_write::{
    dir_add_entry, dir_file_type, dir_remove_entry, dir_rename, hard_link, DirWriteError,
};
use pengwin::group_desc::{GroupDesc, GroupDescTable};
use pengwin::inode::{mode, read_inode, RawInode};
use pengwin::journal::writer::Transaction;
use pengwin::superblock::Superblock;

const BLOCK_SIZE: usize = 4096;
const DEVICE_BLOCKS: usize = 64;

fn make_sb() -> Superblock {
    Superblock {
        block_size: BLOCK_SIZE as u32,
        blocks_count: DEVICE_BLOCKS as u64,
        inodes_count: 64,
        inodes_per_group: 64,
        blocks_per_group: DEVICE_BLOCKS as u32,
        first_data_block: 0,
        uuid: [0u8; 16],
        volume_name: String::new(),
        desc_size: 64,
        feature_incompat: 0,
        feature_ro_compat: 0,
        inode_size: 256,
        state: 0x0001,
    }
}

fn make_gdt() -> GroupDescTable {
    GroupDescTable::from_groups(vec![GroupDesc {
        block_bitmap: 0,
        inode_bitmap: 1,
        inode_table: 2,
        free_blocks_count: (DEVICE_BLOCKS - 8) as u32,
        free_inodes_count: 60,
        itable_unused: 0,
    }])
}

fn make_device() -> (MemoryDevice, Superblock) {
    let mut data = vec![0u8; DEVICE_BLOCKS * BLOCK_SIZE];
    data[0] = 0xFF;
    (MemoryDevice::from_bytes(data), make_sb())
}

fn write_at(dev: &mut MemoryDevice, off: usize, bytes: &[u8]) {
    let mut data = dev.contents().to_vec();
    data[off..off + bytes.len()].copy_from_slice(bytes);
    *dev = MemoryDevice::from_bytes(data);
}

fn write_inode(dev: &mut MemoryDevice, sb: &Superblock, inode_num: u32, raw: &[u8; 128]) {
    let off = 2 * BLOCK_SIZE + (inode_num as usize - 1) * sb.inode_size as usize;
    write_at(dev, off, raw);
}

fn read_inode_raw(dev: &MemoryDevice, sb: &Superblock, inode_num: u32) -> RawInode {
    let off = 2 * BLOCK_SIZE + (inode_num as usize - 1) * sb.inode_size as usize;
    RawInode::read_from(&dev.contents()[off..off + 128]).unwrap()
}

fn raw_inode(mode: u16, size: u64, links: u16, root: Option<u64>) -> [u8; 128] {
    let mut raw = [0u8; 128];
    raw[0..2].copy_from_slice(&mode.to_le_bytes());
    raw[4..8].copy_from_slice(&(size as u32).to_le_bytes());
    raw[26..28].copy_from_slice(&links.to_le_bytes());
    raw[32..36].copy_from_slice(&0x80000u32.to_le_bytes());
    if let Some(phys) = root {
        raw[40..42].copy_from_slice(&0xF30Au16.to_le_bytes());
        raw[42..44].copy_from_slice(&1u16.to_le_bytes());
        raw[44..46].copy_from_slice(&4u16.to_le_bytes());
        raw[56..58].copy_from_slice(&1u16.to_le_bytes());
        raw[60..64].copy_from_slice(&(phys as u32).to_le_bytes());
    }
    raw
}

fn make_raw_dir_inode(phys_block: u64, size: u64, links: u16) -> [u8; 128] {
    raw_inode(mode::S_IFDIR | 0o755, size, links, Some(phys_block))
}

fn make_raw_file_inode(links: u16) -> [u8; 128] {
    raw_inode(mode::S_IFREG | 0o644, 42, links, None)
}

fn write_dir_block(dev: &mut MemoryDevice, phys_block: u64, entries: &[(u32, &str, u8)]) {
    let mut block = vec![0u8; BLOCK_SIZE];
    let mut pos = 0usize;
    for (i, (inum, name, ftype)) in entries.iter().enumerate() {
        let rec_len = if i + 1 == entries.len() {
            (BLOCK_SIZE - pos) as u16
        } else {
            ((8 + name.len() + 3) & !3) as u16
        };
        block[pos..pos + 4].copy_from_slice(&inum.to_le_bytes());
        block[pos + 4..pos + 6].copy_from_slice(&rec_len.to_le_bytes());
        block[pos + 6] = name.len() as u8;
        block[pos + 7] = *ftype;
        block[pos + 8..pos + 8 + name.len()].copy_from_slice(name.as_bytes());
        pos += rec_len as usize;
    }
    write_at(dev, phys_block as usize * BLOCK_SIZE, &block);
}

fn read_dir_block(dev: &MemoryDevice, phys_block: u64) -> Vec<u8> {
    let start = phys_block as usize * BLOCK_SIZE;
    dev.contents()[start..start + BLOCK_SIZE].to_vec()
}

fn parse_entries(block: &[u8]) -> Vec<(u32, String, u8)> {
    let mut out = Vec::new();
    let mut pos = 0usize;
    while pos + 8 <= block.len() {
        let inum =
            u32::from_le_bytes([block[pos], block[pos + 1], block[pos + 2], block[pos + 3]]);
        let rec_len = u16::from_le_bytes([block[pos + 4], block[pos + 5]]) as usize;
        let name_len = block[pos + 6] as usize;
        let ftype = block[pos + 7];
        if rec_len < 8 {
            break;
        }
        if inum != 0 {
            let name = String::from_utf8_lossy(&block[pos + 8..pos + 8 + name_len]).into_owned();
            out.push((inum, name, ftype));
        }
        pos += rec_len;
    }
    out
}

fn apply_txn(dev: &mut MemoryDevice, sb: &Superblock, txn: &Transaction) {
    for (blk, data) in txn.pinned_blocks() {
        let mut padded = data.to_vec();
        padded.resize(sb.block_size as usize, 0);
        write_block(dev, sb.block_size, *blk, &padded).unwrap();
    }
}

#[test]
fn add_entry_with_space() {
    let (mut dev, sb) = make_device();
    let gdt = make_gdt();
    let mut gdt_alloc = make_gdt();
    write_inode(&mut dev, &sb, 2, &make_raw_dir_inode(8, BLOCK_SIZE as u64, 2));
    write_dir_block(&mut dev, 8, &[(2, ".", dir_file_type::DIR), (2, "..", dir_file_type::DIR)]);

    let mut txn = Transaction::new(1);
    let mut alloc = Allocator::new(&sb, &mut gdt_alloc);
    dir_add_entry(
        &mut dev, &sb, &gdt, &mut alloc, &mut txn, 2, "hello", 7, dir_file_type::REG_FILE,
    )
    .unwrap();

    let pinned: Vec<_> = txn.pinned_blocks().iter().filter(|(b, _)| *b == 8).collect();
    assert_eq!(pinned.len(), 1);
    let entries = parse_entries(&pinned[0].1);
    assert!(entries.iter().any(|(_, n, _)| n == "hello"), "hello should be present");
}

#[test]
fn add_entry_already_exists() {
    let (mut dev, sb) = make_device();
    let gdt = make_gdt();
    let mut gdt_alloc = make_gdt();
    write_inode(&mut dev, &sb, 2, &make_raw_dir_inode(8, BLOCK_SIZE as u64, 2));
    write_dir_block(
        &mut dev,
        8,
        &[(2, ".", dir_file_type::DIR), (5, "foo", dir_file_type::REG_FILE)],
    );

    let mut txn = Transaction::new(1);
    let mut alloc = Allocator::new(&sb, &mut gdt_alloc);
    let err = dir_add_entry(
        &mut dev, &sb, &gdt, &mut alloc, &mut txn, 2, "foo", 9, dir_file_type::REG_FILE,
    )
    .unwrap_err();
    assert!(matches!(err, DirWriteError::AlreadyExists(_)));
    assert!(matches!(err, DirWriteError::AlreadyExists(n) if n == "foo"));
}

#[test]
fn remove_entry_merges_rec_len() {
    let (mut dev, sb) = make_device();
    let gdt = make_gdt();
    write_inode(&mut dev, &sb, 2, &make_raw_dir_inode(8, BLOCK_SIZE as u64, 2));
    write_dir_block(
        &mut dev,
        8,
        &[
            (2, ".", dir_file_type::DIR),
            (2, "..", dir_file_type::DIR),
            (5, "target", dir_file_type::REG_FILE),
        ],
    );

    let mut txn = Transaction::new(1);
    let removed = dir_remove_entry(&dev, &sb, &gdt, &mut txn, 2, "target").unwrap();
    assert_eq!(removed, 5);

    let pinned = &txn.pinned_blocks()[0].1;
    let entries = parse_entries(pinned);
    assert!(!entries.iter().any(|(_, n, _)| n == "target"));
    assert_eq!(entries.len(), 2);
}

#[test]
fn remove_entry_first_in_block() {
    let (mut dev, sb) = make_device();
    let gdt = make_gdt();
    write_inode(&mut dev, &sb, 2, &make_raw_dir_inode(8, BLOCK_SIZE as u64, 2));
    write_dir_block(&mut dev, 8, &[(5, "only", dir_file_type::REG_FILE)]);

    let mut txn = Transaction::new(1);
    let removed = dir_remove_entry(&dev, &sb, &gdt, &mut txn, 2, "only").unwrap();
    assert_eq!(removed, 5);

    let pinned = &txn.pinned_blocks()[0].1;
    let inum = u32::from_le_bytes([pinned[0], pinned[1], pinned[2], pinned[3]]);
    assert_eq!(inum, 0, "first entry inode_num should be zeroed");
}

#[test]
fn remove_entry_not_found() {
    let (mut dev, sb) = make_device();
    let gdt = make_gdt();
    write_inode(&mut dev, &sb, 2, &make_raw_dir_inode(8, BLOCK_SIZE as u64, 2));
    write_dir_block(&mut dev, 8, &[(2, ".", dir_file_type::DIR)]);

    let mut txn = Transaction::new(1);
    let err = dir_remove_entry(&dev, &sb, &gdt, &mut txn, 2, "nosuch").unwrap_err();
    assert!(matches!(err, DirWriteError::NotFound(_)));
}

#[test]
fn rename_same_dir() {
    let (mut dev, sb) = make_device();
    let gdt = make_gdt();
    let mut gdt_alloc = make_gdt();
    write_inode(&mut dev, &sb, 2, &make_raw_dir_inode(8, BLOCK_SIZE as u64, 2));
    write_dir_block(
        &mut dev,
        8,
        &[
            (2, ".", dir_file_type::DIR),
            (2, "..", dir_file_type::DIR),
            (5, "foo", dir_file_type::REG_FILE),
        ],
    );

    let mut txn = Transaction::new(1);
    let mut alloc = Allocator::new(&sb, &mut gdt_alloc);
    dir_rename(&mut dev, &sb, &gdt, &mut alloc, &mut txn, 2, "foo", 2, "bar").unwrap();

    apply_txn(&mut dev, &sb, &txn);

    let entries = parse_entries(&read_dir_block(&dev, 8));
    assert!(!entries.iter().any(|(_, n, _)| n == "foo"), "foo should be gone");
    assert!(entries.iter().any(|(_, n, _)| n == "bar"), "bar should be present");
    assert_eq!(entries.iter().find(|(_, n, _)| n == "bar").unwrap().0, 5);
}

#[test]
fn rename_overwrites_existing() {
    let (mut dev, sb) = make_device();
    let gdt = make_gdt();
    let mut gdt_alloc = make_gdt();
    write_inode(&mut dev, &sb, 2, &make_raw_dir_inode(8, BLOCK_SIZE as u64, 2));
    write_inode(&mut dev, &sb, 5, &make_raw_file_inode(2));
    write_dir_block(
        &mut dev,
        8,
        &[
            (2, ".", dir_file_type::DIR),
            (2, "..", dir_file_type::DIR),
            (3, "src", dir_file_type::REG_FILE),
            (5, "dst", dir_file_type::REG_FILE),
        ],
    );

    let mut txn = Transaction::new(1);
    let mut alloc = Allocator::new(&sb, &mut gdt_alloc);
    dir_rename(&mut dev, &sb, &gdt, &mut alloc, &mut txn, 2, "src", 2, "dst").unwrap();

    apply_txn(&mut dev, &sb, &txn);

    let entries = parse_entries(&read_dir_block(&dev, 8));
    assert!(!entries.iter().any(|(_, n, _)| n == "src"), "src should be gone");
    let dst_entry = entries.iter().find(|(_, n, _)| n == "dst");
    assert!(dst_entry.is_some(), "dst should exist");
    assert_eq!(dst_entry.unwrap().0, 3, "dst should point to src's inode");
    assert_eq!(read_inode_raw(&dev, &sb, 5).i_links_count, 1);
}

#[test]
fn hard_link_increments_count() {
    let (mut dev, sb) = make_device();
    let gdt = make_gdt();
    let mut gdt_alloc = make_gdt();
    write_inode(&mut dev, &sb, 2, &make_raw_dir_inode(8, BLOCK_SIZE as u64, 2));
    write_dir_block(&mut dev, 8, &[(2, ".", dir_file_type::DIR), (2, "..", dir_file_type::DIR)]);
    write_inode(&mut dev, &sb, 3, &make_raw_file_inode(1));

    let mut txn = Transaction::new(1);
    let mut alloc = Allocator::new(&sb, &mut gdt_alloc);
    hard_link(&mut dev, &sb, &gdt, &mut alloc, &mut txn, 3, 2, "linkname").unwrap();

    apply_txn(&mut dev, &sb, &txn);

    let raw = read_inode_raw(&dev, &sb, 3);
    assert_eq!(raw.i_links_count, 2u16, "links_count should be 2 after hard link");
    let root = read_inode(&dev, &sb, &gdt, 2).unwrap();
    assert_eq!(lookup(&dev, &sb, &gdt, &root, "linkname").unwrap(), Some(3));
}

#[test]
fn hard_link_to_dir_rejected() {
    let (mut dev, sb) = make_device();
    let gdt = make_gdt();
    let mut gdt_alloc = make_gdt();
    write_inode(&mut dev, &sb, 2, &make_raw_dir_inode(8, BLOCK_SIZE as u64, 2));
    write_dir_block(&mut dev, 8, &[(2, ".", dir_file_type::DIR)]);
    write_inode(&mut dev, &sb, 4, &make_raw_dir_inode(9, BLOCK_SIZE as u64, 2));

    let mut txn = Transaction::new(1);
    let mut alloc = Allocator::new(&sb, &mut gdt_alloc);
    let err =
        hard_link(&mut dev, &sb, &gdt, &mut alloc, &mut txn, 4, 2, "badlink").unwrap_err();
    assert!(matches!(err, DirWriteError::HardLinkToDirectory));
}

#[test]
fn links_and_names_have_limits() {
    let (mut dev, sb) = make_device();
    let gdt = make_gdt();
    let mut gdt_alloc = make_gdt();
    write_inode(&mut dev, &sb, 2, &make_raw_dir_inode(8, BLOCK_SIZE as u64, 2));
    write_dir_block(&mut dev, 8, &[(2, ".", dir_file_type::DIR)]);
    write_inode(&mut dev, &sb, 3, &make_raw_file_inode(65000));
    let mut txn = Transaction::new(1);
    let mut alloc = Allocator::new(&sb, &mut gdt_alloc);
    assert!(matches!(
        hard_link(&mut dev, &sb, &gdt, &mut alloc, &mut txn, 3, 2, "l"),
        Err(DirWriteError::TooManyLinks)
    ));
    let long = "n".repeat(256);
    assert!(matches!(
        hard_link(&mut dev, &sb, &gdt, &mut alloc, &mut txn, 3, 2, &long),
        Err(DirWriteError::NameTooLong)
    ));
    assert!(matches!(
        dir_add_entry(&mut dev, &sb, &gdt, &mut alloc, &mut txn, 2, &long, 3, 1),
        Err(DirWriteError::NameTooLong)
    ));
    assert!(txn.is_empty());
}

#[test]
fn a_directory_grows_by_a_block() {
    let (mut dev, sb) = make_device();
    let mut gdt = make_gdt();
    write_inode(&mut dev, &sb, 2, &make_raw_dir_inode(8, BLOCK_SIZE as u64, 2));
    let mut map = dev.contents()[0..2].to_vec();
    map[1] = 0x01;
    write_at(&mut dev, 0, &map);
    write_dir_block(&mut dev, 8, &[(2, ".", dir_file_type::DIR)]);
    let mut txn = Transaction::new(1);
    for i in 0..20u32 {
        let snap = GroupDescTable::from_groups(vec![*gdt.get(0).unwrap()]);
        let mut alloc = Allocator::new(&sb, &mut gdt);
        let name = format!("{:0>250}", i);
        dir_add_entry(&mut dev, &sb, &snap, &mut alloc, &mut txn, 2, &name, 10 + i, 1).unwrap();
        apply_txn(&mut dev, &sb, &txn);
    }
    let root = read_inode(&dev, &sb, &gdt, 2).unwrap();
    assert_eq!(root.size, 2 * BLOCK_SIZE as u64);
    for i in 0..20u32 {
        let name = format!("{:0>250}", i);
        assert_eq!(lookup(&dev, &sb, &gdt, &root, &name).unwrap(), Some(10 + i));
    }
    assert_eq!(dev.sector_count(), 512);
}

#[test]
fn a_moved_directory_finds_its_new_parent() {
    let (mut dev, sb) = make_device();
    let gdt = make_gdt();
    let mut gdt_alloc = make_gdt();
    write_inode(&mut dev, &sb, 2, &make_raw_dir_inode(8, BLOCK_SIZE as u64, 3));
    write_inode(&mut dev, &sb, 3, &make_raw_dir_inode(9, BLOCK_SIZE as u64, 2));
    write_inode(&mut dev, &sb, 4, &make_raw_dir_inode(10, BLOCK_SIZE as u64, 2));
    write_dir_block(&mut dev, 8, &[(3, "a", 2), (4, "b", 2)]);
    write_dir_block(&mut dev, 9, &[(3, ".", 2), (2, "..", 2)]);
    write_dir_block(&mut dev, 10, &[(4, ".", 2), (2, "..", 2)]);
    let mut txn = Transaction::new(1);
    let mut alloc = Allocator::new(&sb, &mut gdt_alloc);
    dir_rename(&mut dev, &sb, &gdt, &mut alloc, &mut txn, 2, "b", 3, "c").unwrap();
    apply_txn(&mut dev, &sb, &txn);
    let b = read_inode(&dev, &sb, &gdt, 4).unwrap();
    assert_eq!(lookup(&dev, &sb, &gdt, &b, "..").unwrap(), Some(3));
    let a = read_inode(&dev, &sb, &gdt, 3).unwrap();
    assert_eq!(lookup(&dev, &sb, &gdt, &a, "c").unwrap(), Some(4));
    let mut txn = Transaction::new(2);
    let mut gdt_alloc = make_gdt();
    let mut alloc = Allocator::new(&sb, &mut gdt_alloc);
    assert!(matches!(
        dir_rename(&mut dev, &sb, &gdt, &mut alloc, &mut txn, 3, "c", 2, "a"),
        Err(DirWriteError::NotEmpty)
    ));
}

#[test]
fn an_entry_behind_a_deleted_one_is_removed() {
    let (mut dev, sb) = make_device();
    let gdt = make_gdt();
    write_inode(&mut dev, &sb, 2, &make_raw_dir_inode(8, BLOCK_SIZE as u64, 2));
    write_dir_block(&mut dev, 8, &[(5, "a", 1), (0, "x", 1), (6, "b", 1)]);
    let mut txn = Transaction::new(1);
    assert_eq!(dir_remove_entry(&dev, &sb, &gdt, &mut txn, 2, "b").unwrap(), 6);
    apply_txn(&mut dev, &sb, &txn);
    let dir = read_inode(&dev, &sb, &gdt, 2).unwrap();
    let left = read_dir(&dev, &sb, &gdt, &dir).unwrap();
    assert_eq!(left.len(), 1);
    assert_eq!((left[0].inode_num, left[0].name.as_str(), left[0].file_type), (5, "a", 1));
    // The first entry reaches to the end of the block.
    assert_eq!(&read_dir_block(&dev, 8)[4..6], &4096u16.to_le_bytes());
}

#[test]
fn the_first_live_entry_is_removed_behind_a_deleted_one() {
    let (mut dev, sb) = make_device();
    let gdt = make_gdt();
    write_inode(&mut dev, &sb, 2, &make_raw_dir_inode(8, BLOCK_SIZE as u64, 2));
    write_dir_block(&mut dev, 8, &[(0, "x", 1), (5, "a", 1), (6, "b", 1)]);
    let mut txn = Transaction::new(1);
    assert_eq!(dir_remove_entry(&dev, &sb, &gdt, &mut txn, 2, "a").unwrap(), 5);
    apply_txn(&mut dev, &sb, &txn);
    assert_eq!(parse_entries(&read_dir_block(&dev, 8)), [(6, "b".to_string(), 1)]);
    assert!(matches!(
        dir_remove_entry(&dev, &sb, &gdt, &mut Transaction::new(2), 2, "a"),
        Err(DirWriteError::NotFound(_))
    ));
}

#[test]
fn a_name_that_is_kept_stays() {
    let (mut dev, sb) = make_device();
    let gdt = make_gdt();
    let mut gdt_alloc = make_gdt();
    write_inode(&mut dev, &sb, 2, &make_raw_dir_inode(8, BLOCK_SIZE as u64, 2));
    write_inode(&mut dev, &sb, 5, &make_raw_file_inode(1));
    write_dir_block(&mut dev, 8, &[(2, ".", 2), (5, "f", 1)]);
    let before = dev.contents().to_vec();
    let mut txn = Transaction::new(1);
    let mut alloc = Allocator::new(&sb, &mut gdt_alloc);
    dir_rename(&mut dev, &sb, &gdt, &mut alloc, &mut txn, 2, "f", 2, "f").unwrap();
    assert!(txn.is_empty());
    assert_eq!(dev.contents(), &before[..]);
    assert!(matches!(
        dir_rename(&mut dev, &sb, &gdt, &mut alloc, &mut txn, 2, "g", 2, "g"),
        Err(DirWriteError::NotFound(_))
    ));
}

/// A volume with blocks of 64 KiB: the bitmaps, the inodes, and nothing else.
fn large_blocks() -> (MemoryDevice, Superblock) {
    let mut data = vec![0u8; 16 * 65536];
    data[0] = 0x0F;
    let o = 2 * 65536 + 256;
    data[o..o + 2].copy_from_slice(&(mode::S_IFDIR | 0o755).to_le_bytes());
    data[o + 32..o + 36].copy_from_slice(&0x80000u32.to_le_bytes());
    data[o + 40..o + 42].copy_from_slice(&0xF30Au16.to_le_bytes());
    data[o + 44..o + 46].copy_from_slice(&4u16.to_le_bytes());
    let sb = Superblock { block_size: 65536, blocks_count: 16, blocks_per_group: 16, ..make_sb() };
    (MemoryDevice::from_bytes(data), sb)
}

#[test]
fn an_entry_fills_the_largest_block() {
    let (mut dev, sb) = large_blocks();
    let mut gdt = make_gdt();
    let list = |dev: &MemoryDevice, gdt: &GroupDescTable| -> Vec<(u32, String)> {
        let dir = read_inode(dev, &sb, gdt, 2).unwrap();
        assert_eq!(dir.size, 65536);
        let e = read_dir(dev, &sb, gdt, &dir).unwrap();
        e.into_iter().map(|e| (e.inode_num, e.name)).collect()
    };
    for (num, name) in [(7, "a"), (8, "b")] {
        let snap = gdt.clone();
        let mut txn = Transaction::new(1);
        let mut alloc = Allocator::new(&sb, &mut gdt);
        dir_add_entry(&mut dev, &sb, &snap, &mut alloc, &mut txn, 2, name, num, 1).unwrap();
        apply_txn(&mut dev, &sb, &txn);
        if num == 7 {
            // A length of 65536 is written as 65535.
            assert_eq!(&dev.contents()[4 * 65536 + 4..4 * 65536 + 6], &[0xFF, 0xFF]);
            assert_eq!(list(&dev, &gdt), [(7, "a".to_string())]);
        }
    }
    assert_eq!(list(&dev, &gdt), [(7, "a".to_string()), (8, "b".to_string())]);
    let at = 4 * 65536;
    assert_eq!(&dev.contents()[at + 4..at + 6], &12u16.to_le_bytes());
    assert_eq!(&dev.contents()[at + 16..at + 18], &65524u16.to_le_bytes());
    let mut txn = Transaction::new(2);
    assert_eq!(dir_remove_entry(&dev, &sb, &gdt, &mut txn, 2, "b").unwrap(), 8);
    apply_txn(&mut dev, &sb, &txn);
    assert_eq!(list(&dev, &gdt), [(7, "a".to_string())]);
    assert_eq!(&dev.contents()[at + 4..at + 6], &[0xFF, 0xFF]);
}

#[test]
fn entries_added_in_one_transaction_are_all_listed() {
    let (mut dev, sb) = make_device();
    let mut gdt = make_gdt();
    let mut map = dev.contents()[0..2].to_vec();
    map[1] = 0x01;
    write_at(&mut dev, 0, &map);
    write_inode(&mut dev, &sb, 2, &make_raw_dir_inode(8, BLOCK_SIZE as u64, 2));
    write_dir_block(&mut dev, 8, &[(2, ".", 2), (2, "..", 2)]);
    let mut txn = Transaction::new(1);
    for (num, name) in [(7, "one"), (9, "two")] {
        let snap = gdt.clone();
        let mut alloc = Allocator::new(&sb, &mut gdt);
        dir_add_entry(&mut dev, &sb, &snap, &mut alloc, &mut txn, 2, name, num, 1).unwrap();
    }
    apply_txn(&mut dev, &sb, &txn);
    let dir = read_inode(&dev, &sb, &gdt, 2).unwrap();
    let names: Vec<String> =
        read_dir(&dev, &sb, &gdt, &dir).unwrap().into_iter().map(|e| e.name).collect();
    assert_eq!(names, [".", "..", "one", "two"]);
}
