//! Reading files and symbolic links.
use pengwin::block_device::MemoryDevice;
use pengwin::file::{read_symlink, FileError, FileReader, SeekError, SeekTo};
use pengwin::inode::{mode, Inode};
use pengwin::superblock::Superblock;

const BLOCK_SIZE: usize = 4096;

fn make_sb() -> Superblock {
    Superblock {
        block_size: BLOCK_SIZE as u32,
        blocks_count: 256,
        inodes_count: 256,
        inodes_per_group: 256,
        blocks_per_group: 256,
        first_data_block: 0,
        uuid: [0u8; 16],
        volume_name: String::new(),
        desc_size: 64,
        feature_incompat: 0,
        feature_ro_compat: 0,
        inode_size: 256,
        state: 0x0001,
    }
}

fn make_extent_root_leaves(leaves: &[(u32, u16, u64)]) -> [u8; 60] {
    let mut data = [0u8; 60];
    data[0..2].copy_from_slice(&0xF30Au16.to_le_bytes());
    data[2..4].copy_from_slice(&(leaves.len() as u16).to_le_bytes());
    data[4..6].copy_from_slice(&4u16.to_le_bytes());
    for (i, (ee_block, ee_len, phys)) in leaves.iter().enumerate() {
        let off = 12 + i * 12;
        data[off..off + 4].copy_from_slice(&ee_block.to_le_bytes());
        data[off + 4..off + 6].copy_from_slice(&ee_len.to_le_bytes());
        data[off + 6..off + 8].copy_from_slice(&((*phys >> 32) as u16).to_le_bytes());
        data[off + 8..off + 12].copy_from_slice(&(*phys as u32).to_le_bytes());
    }
    data
}

fn make_inode(mode: u16, block_data: [u8; 60], size: u64) -> Inode {
    Inode {
        mode,
        uid: 0,
        gid: 0,
        size,
        atime: 0,
        mtime: 0,
        ctime: 0,
        links_count: 1,
        flags: 0x80000,
        block_data,
    }
}

fn make_file_inode(block_data: [u8; 60], size: u64) -> Inode {
    make_inode(mode::S_IFREG, block_data, size)
}

fn make_device_with_blocks(blocks: &[(u64, Vec<u8>)]) -> MemoryDevice {
    let max_block = blocks.iter().map(|(b, _)| *b).max().unwrap_or(0);
    let mut data = vec![0u8; (max_block as usize + 1) * BLOCK_SIZE];
    for (phys, content) in blocks {
        let start = *phys as usize * BLOCK_SIZE;
        let len = content.len().min(BLOCK_SIZE);
        data[start..start + len].copy_from_slice(&content[..len]);
    }
    MemoryDevice::from_bytes(data)
}

fn one_block(content: &[u8], phys: u64) -> (MemoryDevice, Inode) {
    let inode =
        make_file_inode(make_extent_root_leaves(&[(0, 1, phys)]), content.len() as u64);
    (make_device_with_blocks(&[(phys, content.to_vec())]), inode)
}

fn read_all(reader: &mut FileReader<MemoryDevice>) -> Vec<u8> {
    let mut out = Vec::new();
    let mut buf = [0u8; 1000];
    loop {
        let n = reader.read(&mut buf).unwrap();
        if n == 0 {
            return out;
        }
        out.extend_from_slice(&buf[..n]);
    }
}

#[test]
fn read_small_file() {
    let content = b"hello file\n";
    let (dev, inode) = one_block(content, 2);
    let sb = make_sb();
    let mut reader = FileReader::new(&dev, &sb, &inode).unwrap();
    assert_eq!(read_all(&mut reader), content);
}

#[test]
fn read_multi_block_file() {
    let block_data = make_extent_root_leaves(&[(0, 3, 5)]);
    let inode = make_file_inode(block_data, 3 * BLOCK_SIZE as u64);
    let dev = make_device_with_blocks(&[
        (5, vec![0xAAu8; BLOCK_SIZE]),
        (6, vec![0xBBu8; BLOCK_SIZE]),
        (7, vec![0xCCu8; BLOCK_SIZE]),
    ]);
    let sb = make_sb();

    let mut reader = FileReader::new(&dev, &sb, &inode).unwrap();
    let mut out = vec![0u8; 3 * BLOCK_SIZE];
    assert_eq!(reader.read(&mut out).unwrap(), 3 * BLOCK_SIZE);
    assert!(out[..BLOCK_SIZE].iter().all(|&b| b == 0xAA));
    assert!(out[BLOCK_SIZE..2 * BLOCK_SIZE].iter().all(|&b| b == 0xBB));
    assert!(out[2 * BLOCK_SIZE..].iter().all(|&b| b == 0xCC));
}

#[test]
fn read_with_offset() {
    let mut content = vec![0u8; BLOCK_SIZE];
    for (i, b) in content.iter_mut().enumerate() {
        *b = (i % 256) as u8;
    }
    let (dev, inode) = one_block(&content, 3);
    let sb = make_sb();

    let mut reader = FileReader::new(&dev, &sb, &inode).unwrap();
    reader.seek(SeekTo::Start(100)).unwrap();
    let mut out = [0u8; 50];
    assert_eq!(reader.read(&mut out).unwrap(), 50);
    assert_eq!(&out[..], &content[100..150]);
}

#[test]
fn read_small_file_with_oversized_buffer() {
    let content = b"hello world\n";
    let (dev, inode) = one_block(content, 2);
    let sb = make_sb();

    let mut reader = FileReader::new(&dev, &sb, &inode).unwrap();
    let mut out = vec![0xCDu8; 4096];
    let n = reader.read(&mut out).unwrap();
    assert_eq!(n, content.len(), "should report bytes_read == file_size");
    assert_eq!(&out[..n], content);

    let n2 = reader.read(&mut out).unwrap();
    assert_eq!(n2, 0);
}

#[test]
fn repeated_reads_are_deterministic() {
    let content = b"hello world\n";
    let (dev, inode) = one_block(content, 2);
    let sb = make_sb();

    let mut a = FileReader::new(&dev, &sb, &inode).unwrap();
    let mut b = FileReader::new(&dev, &sb, &inode).unwrap();
    let mut buf_a = vec![0u8; 4096];
    let mut buf_b = vec![0u8; 4096];
    let na = a.read(&mut buf_a).unwrap();
    let nb = b.read(&mut buf_b).unwrap();
    assert_eq!(na, nb);
    assert_eq!(&buf_a[..na], &buf_b[..nb]);
}

#[test]
fn read_past_eof() {
    let content = b"short";
    let (dev, inode) = one_block(content, 1);
    let sb = make_sb();

    let mut reader = FileReader::new(&dev, &sb, &inode).unwrap();
    let mut out = vec![0u8; 1000];
    let n = reader.read(&mut out).unwrap();
    assert_eq!(n, content.len());
    assert_eq!(&out[..n], content);
}

#[test]
fn read_sparse_hole() {
    let block_data = make_extent_root_leaves(&[(0, 1, 5), (2, 1, 7)]);
    let inode = make_file_inode(block_data, 3 * BLOCK_SIZE as u64);
    let dev =
        make_device_with_blocks(&[(5, vec![0xAAu8; BLOCK_SIZE]), (7, vec![0xCCu8; BLOCK_SIZE])]);
    let sb = make_sb();

    let mut reader = FileReader::new(&dev, &sb, &inode).unwrap();
    let mut out = vec![0u8; 3 * BLOCK_SIZE];
    assert_eq!(reader.read(&mut out).unwrap(), 3 * BLOCK_SIZE);

    assert!(out[..BLOCK_SIZE].iter().all(|&b| b == 0xAA));
    assert!(out[BLOCK_SIZE..2 * BLOCK_SIZE].iter().all(|&b| b == 0));
    assert!(out[2 * BLOCK_SIZE..].iter().all(|&b| b == 0xCC));
}

#[test]
fn seek_from_end() {
    let content = b"abcdef";
    let (dev, inode) = one_block(content, 2);
    let sb = make_sb();

    let mut reader = FileReader::new(&dev, &sb, &inode).unwrap();
    let pos = reader.seek(SeekTo::End(-1)).unwrap();
    assert_eq!(pos, content.len() as u64 - 1);
    let mut byte = [0u8; 1];
    assert_eq!(reader.read(&mut byte).unwrap(), 1);
    assert_eq!(byte[0], b'f');
}

#[test]
fn seek_before_start_is_error() {
    let (dev, inode) = one_block(b"abcdef", 2);
    let sb = make_sb();
    let mut reader = FileReader::new(&dev, &sb, &inode).unwrap();
    let err = reader.seek(SeekTo::End(-1000)).unwrap_err();
    assert_eq!(err, SeekError::BeforeStart);
}

#[test]
fn fast_symlink() {
    let target = "/hello.txt";
    let mut block_data = [0u8; 60];
    block_data[..target.len()].copy_from_slice(target.as_bytes());
    let inode = make_inode(mode::S_IFLNK, block_data, target.len() as u64);
    let result = read_symlink(&inode).unwrap();
    assert_eq!(result, target);
}

#[test]
fn not_a_file_returns_error() {
    let inode = make_inode(mode::S_IFDIR, [0u8; 60], 0);
    let dev = MemoryDevice::from_bytes(vec![0u8; 512]);
    let sb = make_sb();
    match FileReader::new(&dev, &sb, &inode) {
        Err(FileError::NotAFile) => {}
        other => panic!("expected NotAFile, got {:?}", other.err()),
    }
}

#[test]
fn seeks_stay_in_the_file() {
    let (dev, inode) = one_block(b"abcdef", 2);
    let sb = make_sb();
    let mut reader = FileReader::new(&dev, &sb, &inode).unwrap();
    assert_eq!(reader.size(), 6);
    assert_eq!(reader.seek(SeekTo::Start(100)).unwrap(), 6);
    assert_eq!(reader.seek(SeekTo::Current(-2)).unwrap(), 4);
    assert_eq!(reader.seek(SeekTo::Start(u64::MAX)), Err(SeekError::TooLarge));
    assert_eq!(reader.seek(SeekTo::Current(i64::MAX)), Err(SeekError::OutOfRange));
    assert_eq!(reader.seek(SeekTo::Current(0)).unwrap(), 4);
}

#[test]
fn blocks_that_are_not_there_cannot_be_read() {
    let inode = make_file_inode(make_extent_root_leaves(&[(0, 1, 99)]), 10);
    let dev = MemoryDevice::from_bytes(vec![0u8; 4096]);
    let sb = make_sb();
    let mut reader = FileReader::new(&dev, &sb, &inode).unwrap();
    assert!(matches!(reader.read(&mut [0u8; 10]), Err(FileError::BlockDevice(_))));
}

#[test]
fn long_targets_are_not_in_the_inode() {
    let inode = make_inode(mode::S_IFLNK, [b'x'; 60], 60);
    assert!(matches!(read_symlink(&inode), Err(FileError::SlowSymlink)));
}

#[test]
fn the_hole_of_a_sparse_file_is_zero() {
    // One block of a file of 8 GiB lies anywhere.
    let mut raw = vec![0u8; 16 * 4096];
    raw[4096..8192].fill(0x11);
    let dev = MemoryDevice::from_bytes(raw);
    let sb = make_sb();
    let size = 8u64 * 1024 * 1024 * 1024;
    let inode = make_file_inode(make_extent_root_leaves(&[(0, 1, 1)]), size);
    let mut reader = FileReader::new(&dev, &sb, &inode).unwrap();
    assert_eq!(reader.size(), size);
    for at in [2 * 1024 * 1024, 4u64 * 1024 * 1024 * 1024] {
        reader.seek(SeekTo::Start(at)).unwrap();
        let mut buf = [0xFFu8; 512];
        assert_eq!(reader.read(&mut buf).unwrap(), 512);
        assert_eq!(buf, [0u8; 512]);
    }
    reader.seek(SeekTo::Start(0)).unwrap();
    let mut buf = [0u8; 512];
    assert_eq!(reader.read(&mut buf).unwrap(), 512);
    assert_eq!(buf, [0x11u8; 512]);
}
