//! Reading directories.
use pengwin::block_device::MemoryDevice;
use pengwin::dir::{dir_file_type, lookup, read_dir, DirError};
use pengwin::group_desc::{GroupDesc, GroupDescTable};
use pengwin::inode::{mode, Inode};
use pengwin::superblock::Superblock;

const BLOCK_SIZE: usize = 4096;

fn make_sb() -> Superblock {
    Superblock {
        block_size: BLOCK_SIZE as u32,
        blocks_count: 1024,
        inodes_count: 256,
        inodes_per_group: 256,
        blocks_per_group: 1024,
        first_data_block: 0,
        uuid: [0u8; 16],
        volume_name: String::new(),
        desc_size: 64,
        feature_incompat: 0,
        feature_ro_compat: 0,
        inode_size: 256,
        state: 0x0001,
    }
}

fn make_extent_root(phys_block: u64) -> [u8; 60] {
    let mut data = [0u8; 60];
    data[0..2].copy_from_slice(&0xF30Au16.to_le_bytes());
    data[2..4].copy_from_slice(&1u16.to_le_bytes());
    data[4..6].copy_from_slice(&4u16.to_le_bytes());
    data[16..18].copy_from_slice(&1u16.to_le_bytes());
    data[18..20].copy_from_slice(&((phys_block >> 32) as u16).to_le_bytes());
    data[20..24].copy_from_slice(&(phys_block as u32).to_le_bytes());
    data
}

fn make_inode(mode: u16, block_data: [u8; 60], size: u64, links_count: u16) -> Inode {
    Inode {
        mode,
        uid: 0,
        gid: 0,
        size,
        atime: 0,
        mtime: 0,
        ctime: 0,
        links_count,
        flags: 0x80000,
        block_data,
    }
}

fn write_dirent(
    block: &mut [u8],
    offset: usize,
    inode: u32,
    name: &str,
    ftype: u8,
    rec_len: u16,
) -> usize {
    let bytes = name.as_bytes();
    block[offset..offset + 4].copy_from_slice(&inode.to_le_bytes());
    block[offset + 4..offset + 6].copy_from_slice(&rec_len.to_le_bytes());
    block[offset + 6] = bytes.len() as u8;
    block[offset + 7] = ftype;
    block[offset + 8..offset + 8 + bytes.len()].copy_from_slice(bytes);
    rec_len as usize
}

fn gdt() -> GroupDescTable {
    GroupDescTable::from_groups(vec![GroupDesc {
        block_bitmap: 0,
        inode_bitmap: 0,
        inode_table: 0,
        free_blocks_count: 0,
        free_inodes_count: 0,
        itable_unused: 0,
    }])
}

fn make_device_with_dir(
    entries: &[(u32, &str, u8)],
) -> (MemoryDevice, Superblock, GroupDescTable, Inode) {
    let phys_block: u64 = 1;
    let mut block = vec![0u8; BLOCK_SIZE];
    let mut pos = 0usize;
    for (i, (inum, name, ftype)) in entries.iter().enumerate() {
        let rec_len = if i + 1 == entries.len() {
            (BLOCK_SIZE - pos) as u16
        } else {
            ((8 + name.len() + 3) & !3) as u16
        };
        pos += write_dirent(&mut block, pos, *inum, name, *ftype, rec_len);
    }
    let mut data = vec![0u8; (phys_block as usize + 1) * BLOCK_SIZE];
    let start = phys_block as usize * BLOCK_SIZE;
    data[start..start + BLOCK_SIZE].copy_from_slice(&block);
    let inode = make_inode(mode::S_IFDIR, make_extent_root(phys_block), BLOCK_SIZE as u64, 2);
    (MemoryDevice::from_bytes(data), make_sb(), gdt(), inode)
}

#[test]
fn read_root_dir() {
    let entries = &[
        (2, ".", dir_file_type::DIR),
        (2, "..", dir_file_type::DIR),
        (11, "lost+found", dir_file_type::DIR),
    ];
    let (dev, sb, gdt, inode) = make_device_with_dir(entries);
    let result = read_dir(&dev, &sb, &gdt, &inode).unwrap();
    let names: Vec<_> = result.iter().map(|e| e.name.as_str()).collect();
    assert!(names.contains(&"."));
    assert!(names.contains(&".."));
    assert!(names.contains(&"lost+found"));
    assert_eq!(result[2].file_type, dir_file_type::DIR);
}

#[test]
fn lookup_existing() {
    let entries = &[
        (2, ".", dir_file_type::DIR),
        (2, "..", dir_file_type::DIR),
        (42, "readme.txt", dir_file_type::REG_FILE),
    ];
    let (dev, sb, gdt, inode) = make_device_with_dir(entries);
    let inum = lookup(&dev, &sb, &gdt, &inode, "readme.txt").unwrap();
    assert_eq!(inum, Some(42));
}

#[test]
fn lookup_missing() {
    let entries = &[(2, ".", dir_file_type::DIR), (2, "..", dir_file_type::DIR)];
    let (dev, sb, gdt, inode) = make_device_with_dir(entries);
    let result = lookup(&dev, &sb, &gdt, &inode, "nosuchfile").unwrap();
    assert_eq!(result, None);
}

#[test]
fn skip_deleted() {
    let entries =
        &[(0, "ghost", dir_file_type::REG_FILE), (7, "alive", dir_file_type::REG_FILE)];
    let (dev, sb, gdt, inode) = make_device_with_dir(entries);
    let result = read_dir(&dev, &sb, &gdt, &inode).unwrap();
    assert!(result.iter().all(|e| e.inode_num != 0));
    assert_eq!(result.len(), 1);
    assert_eq!(result[0].name, "alive");
}

#[test]
fn not_a_directory() {
    let inode = make_inode(mode::S_IFREG, [0u8; 60], 0, 1);
    let dev = MemoryDevice::from_bytes(vec![0u8; 512]);
    let err = read_dir(&dev, &make_sb(), &gdt(), &inode).unwrap_err();
    assert!(matches!(err, DirError::NotADirectory));
}

#[test]
fn entries_that_are_too_short_are_refused() {
    let (dev, sb, gdt, inode) = make_device_with_dir(&[(7, "alive", dir_file_type::REG_FILE)]);
    let mut data = dev.contents().to_vec();
    data[BLOCK_SIZE + 4] = 4;
    data[BLOCK_SIZE + 5] = 0;
    let dev = MemoryDevice::from_bytes(data);
    assert!(matches!(read_dir(&dev, &sb, &gdt, &inode), Err(DirError::InvalidRecLen(4))));
}

#[test]
fn bytes_that_are_no_text_are_replaced() {
    let (dev, sb, gdt, inode) = make_device_with_dir(&[(7, "alive", dir_file_type::REG_FILE)]);
    let mut data = dev.contents().to_vec();
    data[BLOCK_SIZE + 8] = 0xFF;
    let dev = MemoryDevice::from_bytes(data);
    let entries = read_dir(&dev, &sb, &gdt, &inode).unwrap();
    assert_eq!(entries[0].name, "\u{FFFD}live");
}
