//! The requests that a mounted volume serves.
use pengwin::block_device::MemoryDevice;
use pengwin::cli::open_fs;
use pengwin::extent::lookup_block;
use pengwin::fs_context::{Ext4Fs, Ext4FsError, FileHandle};
use pengwin::fsp_impl::create::split_path;
use pengwin::fsp_impl::file_info::FileInfo;
use pengwin::fsp_impl::open_close::encode_symlink_reparse_buffer;
use pengwin::fsp_impl::set_file_info::from_filetime;
use pengwin::fsp_impl::volume_info::VolumeInfo;
use pengwin::fsp_impl::Status;
use pengwin::journal::JournalError;
use pengwin::superblock::parse;

const BS: usize = 4096;
const BLOCKS: usize = 256;

fn put16(s: &mut [u8], off: usize, v: u16) {
    s[off..off + 2].copy_from_slice(&v.to_le_bytes());
}

fn put32(s: &mut [u8], off: usize, v: u32) {
    s[off..off + 4].copy_from_slice(&v.to_le_bytes());
}

fn put_be(s: &mut [u8], off: usize, v: u32) {
    s[off..off + 4].copy_from_slice(&v.to_be_bytes());
}

fn put_inode(s: &mut [u8], num: usize, mode: u16, size: u32, links: u16, extent: Option<(u16, u32)>) {
    let o = 4 * BS + (num - 1) * 256;
    put16(s, o, mode);
    put32(s, o + 4, size);
    put16(s, o + 26, links);
    put32(s, o + 32, 0x80000);
    put16(s, o + 40, 0xF30A);
    put16(s, o + 44, 4);
    if let Some((len, phys)) = extent {
        put16(s, o + 42, 1);
        put16(s, o + 56, len);
        put32(s, o + 60, phys);
    }
}

fn put_dir(s: &mut [u8], block: usize, entries: &[(u32, &str, u8)]) {
    let mut o = block * BS;
    let end = o + BS;
    for (i, (num, name, kind)) in entries.iter().enumerate() {
        let len = if i + 1 == entries.len() { end - o } else { (8 + name.len() + 3) / 4 * 4 };
        put32(s, o, *num);
        put16(s, o + 4, len as u16);
        s[o + 6] = name.len() as u8;
        s[o + 7] = *kind;
        s[o + 8..o + 8 + name.len()].copy_from_slice(name.as_bytes());
        o += len;
    }
}

/// A volume of 256 blocks. Block 1 holds the descriptor of its one group, 2 and
/// 3 the bitmaps, 4 to 7 the inodes, 8 the root directory, 9 to 40 the journal.
fn image() -> Vec<u8> {
    let mut s = vec![0u8; BLOCKS * BS];
    let sb = 1024;
    put32(&mut s, sb, 64);
    put32(&mut s, sb + 4, BLOCKS as u32);
    put32(&mut s, sb + 12, 213);
    put32(&mut s, sb + 16, 49);
    put32(&mut s, sb + 24, 2);
    put32(&mut s, sb + 32, BLOCKS as u32);
    put32(&mut s, sb + 40, 64);
    put16(&mut s, sb + 56, 0xEF53);
    put16(&mut s, sb + 58, 1);
    put32(&mut s, sb + 64, 1);
    put16(&mut s, sb + 88, 256);
    put32(&mut s, sb + 96, 0x42);
    s[sb + 104..sb + 108].copy_from_slice(&[1, 2, 3, 4]);
    s[sb + 120..sb + 124].copy_from_slice(b"peng");
    put16(&mut s, sb + 254, 64);
    let gd = BS;
    put32(&mut s, gd, 2);
    put32(&mut s, gd + 4, 3);
    put32(&mut s, gd + 8, 4);
    put16(&mut s, gd + 12, 213);
    put16(&mut s, gd + 14, 49);
    s[2 * BS..2 * BS + 5].fill(0xFF);
    s[2 * BS + 5] = 0x07;
    s[3 * BS] = 0xFF;
    s[3 * BS + 1] = 0x7F;
    put_inode(&mut s, 2, 0o040755, BS as u32, 2, Some((1, 8)));
    put_inode(&mut s, 8, 0o100600, 32 * BS as u32, 1, Some((32, 9)));
    put_inode(&mut s, 12, 0o100644, 12, 1, Some((1, 41)));
    put_inode(&mut s, 13, 0o120777, 9, 1, None);
    let o = 4 * BS + 12 * 256 + 40;
    s[o..o + 60].fill(0);
    s[o..o + 9].copy_from_slice(b"hello.txt");
    put_inode(&mut s, 14, 0o120777, 80, 1, Some((1, 42)));
    put_inode(&mut s, 15, 0o010644, 0, 1, None);
    put_dir(
        &mut s,
        8,
        &[
            (2, ".", 2),
            (2, "..", 2),
            (12, "hello.txt", 1),
            (13, "fast", 7),
            (14, "slow", 7),
            (15, "pipe", 5),
        ],
    );
    s[41 * BS..41 * BS + 12].copy_from_slice(b"hello world\n");
    for i in 0..8 {
        s[42 * BS + 10 * i..42 * BS + 10 * i + 10].copy_from_slice(b"/long/name");
    }
    let j = 9 * BS;
    put_be(&mut s, j, 0xC03B_3998);
    put_be(&mut s, j + 4, 4);
    put_be(&mut s, j + 12, BS as u32);
    put_be(&mut s, j + 16, 32);
    put_be(&mut s, j + 20, 1);
    put_be(&mut s, j + 24, 1);
    s
}

type Fs = Ext4Fs<MemoryDevice>;

fn rw() -> Fs {
    Ext4Fs::open_rw(MemoryDevice::from_bytes(image())).expect("mount")
}

fn ro() -> Fs {
    Ext4Fs::open(MemoryDevice::from_bytes(image())).expect("mount")
}

fn open(fs: &Fs, name: &str) -> Result<FileHandle, Status> {
    fs.open_handle(name, &mut FileInfo::default())
}

fn read(fs: &Fs, name: &str) -> Vec<u8> {
    let h = open(fs, name).expect("open");
    let mut out = Vec::new();
    let mut buf = vec![0u8; 3000];
    loop {
        let n = fs.read_file_data(&h, &mut buf, out.len() as u64).expect("read") as usize;
        if n == 0 {
            return out;
        }
        out.extend_from_slice(&buf[..n]);
    }
}

fn create(fs: &mut Fs, name: &str, dir: bool) -> Result<FileHandle, Status> {
    fs.create_handle(name, if dir { 1 } else { 0 }, &mut FileInfo::default())
}

fn write(fs: &mut Fs, h: &FileHandle, data: &[u8], offset: u64) -> Result<u32, Status> {
    fs.write_file_data_cb(h, data, offset, false, false, &mut FileInfo::default())
}

fn names(fs: &Fs, dir: &str) -> Vec<String> {
    let h = open(fs, dir).expect("open");
    fs.read_dir_entries(&h).expect("list").into_iter().map(|e| e.name).collect()
}

#[test]
fn a_clean_volume_is_read() {
    let fs = ro();
    assert_eq!(fs.superblock().volume_name, "peng");
    assert_eq!(fs.sb().block_size, 4096);
    assert_eq!(read(&fs, r"\hello.txt"), b"hello world\n");
    assert_eq!(names(&fs, r"\"), ["hello.txt", "fast", "slow", "pipe"]);
    assert_eq!(fs.dev().contents(), &image()[..]);
}

#[test]
fn a_dirty_journal_needs_force_or_a_replay() {
    let mut raw = image();
    put_be(&mut raw, 9 * BS + 28, 1);
    // One transaction in the log: block 41 becomes all 'x'.
    let o = 10 * BS;
    for (k, kind) in [(0usize, 1u32), (2, 2)] {
        put_be(&mut raw, o + k * BS, 0xC03B_3998);
        put_be(&mut raw, o + k * BS + 4, kind);
        put_be(&mut raw, o + k * BS + 8, 1);
    }
    put_be(&mut raw, o + 12, 41);
    raw[o + 16..o + 18].copy_from_slice(&0x0009u16.to_be_bytes());
    raw[11 * BS..12 * BS].fill(b'x');

    let r = Ext4Fs::open(MemoryDevice::from_bytes(raw.clone()));
    assert!(matches!(r.err(), Some(Ext4FsError::DirtyJournalReadOnly)));

    let fs = Ext4Fs::open_ro_force(MemoryDevice::from_bytes(raw.clone())).expect("force");
    assert_eq!(read(&fs, "/hello.txt"), b"hello world\n");
    assert_eq!(fs.dev().contents(), &raw[..]);

    let fs = open_fs(MemoryDevice::from_bytes(raw), true, true).expect("replay");
    assert_eq!(read(&fs, "/hello.txt"), b"xxxxxxxxxxxx");
}

#[test]
fn a_journal_with_an_error_is_refused() {
    let mut raw = image();
    put_be(&mut raw, 9 * BS + 32, 5);
    for (rw, force) in [(false, false), (true, false)] {
        let r = open_fs(MemoryDevice::from_bytes(raw.clone()), rw, force);
        assert!(matches!(
            r.err(),
            Some(Ext4FsError::Journal(JournalError::JournalErrno(5)))
        ));
    }
    assert!(open_fs(MemoryDevice::from_bytes(raw), false, true).is_ok());
}

#[test]
fn paths_are_followed() {
    let mut fs = rw();
    create(&mut fs, r"\d", true).unwrap();
    create(&mut fs, r"\d\f", false).unwrap();
    assert_eq!(fs.resolve_path("/").unwrap(), 2);
    assert_eq!(fs.resolve_path("//./hello.txt").unwrap(), 12);
    assert_eq!(fs.resolve_path("/d/f").unwrap(), 17);
    assert!(matches!(fs.resolve_path("/d/../d"), Err(Ext4FsError::DotDotNotAllowed)));
    assert!(
        matches!(fs.resolve_path("/hello.txt/x"), Err(Ext4FsError::NotADirectory(n)) if n == "x")
    );
    assert!(matches!(fs.resolve_path("/no"), Err(Ext4FsError::NotFound(p)) if p == "/no"));
    assert_eq!(open(&fs, r"\d\no").err(), Some(Status::ObjectNameNotFound));
}

#[test]
fn split_paths() {
    assert_eq!(split_path("/parent/dir/name"), Some(("/parent/dir", "name")));
    assert_eq!(split_path("/name"), Some(("/", "name")));
    assert_eq!(split_path("/dir/name//"), Some(("/dir", "name")));
    assert_eq!(split_path("/"), None);
    assert_eq!(split_path(""), None);
    assert_eq!(split_path("name"), None);
}

#[test]
fn what_is_written_is_read_back() {
    let mut fs = rw();
    let h = create(&mut fs, r"\new.bin", false).unwrap();
    let data: Vec<u8> = (0..20000u32).map(|i| (i % 251) as u8).collect();
    assert_eq!(write(&mut fs, &h, &data, 0).unwrap(), 20000);
    assert_eq!(read(&fs, r"\new.bin"), data);

    // In the middle, across blocks.
    assert_eq!(write(&mut fs, &h, &[7u8; 5000], 3000).unwrap(), 5000);
    let mut expect = data.clone();
    expect[3000..8000].fill(7);
    assert_eq!(read(&fs, r"\new.bin"), expect);

    // At the end.
    let mut info = FileInfo::default();
    assert_eq!(fs.write_file_data_cb(&h, b"end", 0, true, false, &mut info).unwrap(), 3);
    expect.extend_from_slice(b"end");
    assert_eq!(info.file_size, 20003);
    assert_eq!(info.allocation_size, 20480);
    assert_eq!(read(&fs, r"\new.bin"), expect);

    // Not past the end.
    assert_eq!(fs.write_file_data_cb(&h, b"more", 20000, false, true, &mut info).unwrap(), 0);
    assert_eq!(write(&mut fs, &h, b"", 0).unwrap(), 0);
    assert_eq!(read(&fs, r"\new.bin"), expect);
    assert_eq!(read(&fs, r"\hello.txt"), b"hello world\n");
}

#[test]
fn a_file_takes_the_rest_of_the_volume() {
    let mut fs = rw();
    let h = create(&mut fs, r"\big", false).unwrap();
    let data = vec![3u8; 100 * BS];
    // A transaction has to fit into the journal, which limits a single write no
    // more than the data blocks do, which are not logged.
    assert_eq!(write(&mut fs, &h, &data, 0), Ok(100 * BS as u32));
    assert_eq!(write(&mut fs, &h, &data, 100 * BS as u64), Ok(100 * BS as u32));
    assert_eq!(write(&mut fs, &h, &data, 200 * BS as u64), Err(Status::DiskFull));
    assert_eq!(read(&fs, r"\big").len(), 200 * BS);
    assert_eq!(write(&mut fs, &h, b"x", u64::MAX), Err(Status::DiskFull));
}

#[test]
fn sizes_are_set() {
    let mut fs = rw();
    let h = create(&mut fs, r"\f", false).unwrap();
    write(&mut fs, &h, &[9u8; 10000], 0).unwrap();
    let mut before = VolumeInfo { total_size: 0, free_size: 0, volume_label: String::new() };
    fs.fill_volume_info(&mut before).unwrap();
    let mut info = FileInfo::default();
    fs.set_file_size_cb(&h, 100, &mut info).unwrap();
    assert_eq!(info.file_size, 100);
    assert_eq!(read(&fs, r"\f"), vec![9u8; 100]);
    let mut after = VolumeInfo { total_size: 0, free_size: 0, volume_label: String::new() };
    fs.fill_volume_info(&mut after).unwrap();
    assert_eq!(after.free_size - before.free_size, 2 * BS as u64);
    assert_eq!(after.total_size, 256 * BS as u64);
    assert_eq!(after.volume_label, "peng");
    // A larger size reads as zeros behind the blocks that there are.
    fs.set_file_size_cb(&h, 9000, &mut info).unwrap();
    let data = read(&fs, r"\f");
    assert_eq!(data.len(), 9000);
    assert!(data[BS..].iter().all(|&b| b == 0));
    let dir = open(&fs, r"\").unwrap();
    assert_eq!(fs.set_file_size_cb(&dir, 0, &mut info), Err(Status::InvalidDeviceRequest));
}

#[test]
fn files_and_directories_are_created() {
    let mut fs = rw();
    let mut info = FileInfo::default();
    let h = fs.create_handle_at(r"\dir", 1, Some(1000), &mut info).unwrap();
    assert!(matches!(h, FileHandle::Directory { inode_num: 16, .. }));
    assert_eq!(info.file_attributes, 0x11);
    assert_eq!(info.creation_time, (1000 + 11_644_473_600) * 10_000_000);
    assert!(names(&fs, r"\dir").is_empty());
    assert!(matches!(create(&mut fs, r"\dir\f", false), Ok(FileHandle::File { .. })));
    assert_eq!(names(&fs, r"\dir"), ["f"]);
    assert_eq!(create(&mut fs, r"\dir", false).err(), Some(Status::ObjectNameCollision));
    assert_eq!(create(&mut fs, r"\no\f", false).err(), Some(Status::ObjectPathNotFound));
    assert_eq!(create(&mut fs, r"\hello.txt\f", false).err(), Some(Status::NotADirectory));
    assert_eq!(create(&mut fs, r"\", false).err(), Some(Status::ObjectNameInvalid));
    let root = fs.inode(2).unwrap();
    assert_eq!(root.links_count, 3);
}

#[test]
fn files_are_deleted() {
    let mut fs = rw();
    let h = create(&mut fs, r"\f", false).unwrap();
    write(&mut fs, &h, &[1u8; 9000], 0).unwrap();
    fs.set_delete_cb(&h, true).unwrap();
    fs.cleanup_handle_write(&h, Some(r"\f"), 0);
    assert!(open(&fs, r"\f").is_ok());
    fs.cleanup_handle_write(&h, None, 1);
    assert!(open(&fs, r"\f").is_ok());
    fs.cleanup_handle_write_at(&h, Some(r"\f"), 1, Some(5));
    assert_eq!(open(&fs, r"\f").err(), Some(Status::ObjectNameNotFound));
    // Its blocks and its inode can be had again.
    let mut info = VolumeInfo { total_size: 0, free_size: 0, volume_label: String::new() };
    fs.fill_volume_info(&mut info).unwrap();
    assert_eq!(info.free_size, 213 * BS as u64);
    assert!(matches!(create(&mut fs, r"\g", false), Ok(FileHandle::File { inode_num: 16, .. })));
}

#[test]
fn only_empty_directories_are_deleted() {
    let mut fs = rw();
    create(&mut fs, r"\d", true).unwrap();
    let f = create(&mut fs, r"\d\f", false).unwrap();
    let d = open(&fs, r"\d").unwrap();
    assert_eq!(fs.set_delete_cb(&d, true), Err(Status::DirectoryNotEmpty));
    assert_eq!(fs.set_delete_cb(&d, false), Ok(()));
    fs.cleanup_handle_write(&f, Some(r"\d\f"), 1);
    assert_eq!(fs.set_delete_cb(&d, true), Ok(()));
    fs.cleanup_handle_write(&d, Some(r"\d"), 1);
    assert_eq!(open(&fs, r"\d").err(), Some(Status::ObjectNameNotFound));
    assert_eq!(fs.inode(2).unwrap().links_count, 2);
}

#[test]
fn files_are_renamed() {
    let mut fs = rw();
    create(&mut fs, r"\d", true).unwrap();
    create(&mut fs, r"\other", false).unwrap();
    assert_eq!(
        fs.rename_handle(r"\hello.txt", r"\other", false),
        Err(Status::ObjectNameCollision)
    );
    assert_eq!(fs.rename_handle(r"\hello.txt", r"\d\moved", false), Ok(()));
    assert_eq!(read(&fs, r"\d\moved"), b"hello world\n");
    assert_eq!(open(&fs, r"\hello.txt").err(), Some(Status::ObjectNameNotFound));
    assert_eq!(fs.rename_handle(r"\d\moved", r"\other", true), Ok(()));
    assert_eq!(read(&fs, r"\other"), b"hello world\n");
    assert_eq!(fs.rename_handle(r"\", r"\x", true), Err(Status::ObjectNameInvalid));
    assert_eq!(fs.rename_handle(r"\no\a", r"\x", true), Err(Status::ObjectPathNotFound));
    assert_eq!(fs.rename_handle(r"\gone", r"\x", true), Err(Status::InternalError));
}

#[test]
fn a_new_name_that_is_taken_is_replaced() {
    let mut fs = rw();
    create(&mut fs, r"\d", true).unwrap();
    let there = create(&mut fs, r"\d\there", false).unwrap().parts().0;
    let here = create(&mut fs, r"\here", false).unwrap().parts().0;
    // In one directory.
    assert_eq!(fs.rename_handle(r"\hello.txt", r"\here", true), Ok(()));
    assert_eq!(fs.resolve_path("/here").unwrap(), 12);
    assert_eq!(open(&fs, r"\hello.txt").err(), Some(Status::ObjectNameNotFound));
    assert_ne!(here, 12);
    // In another one.
    assert_eq!(fs.rename_handle(r"\here", r"\d\there", true), Ok(()));
    assert_eq!(fs.resolve_path("/d/there").unwrap(), 12);
    assert_ne!(there, 12);
    assert_eq!(names(&fs, r"\d"), ["there"]);
    assert_eq!(open(&fs, r"\here").err(), Some(Status::ObjectNameNotFound));
    // An empty directory gives way to another, one that holds something does not.
    create(&mut fs, r"\e", true).unwrap();
    let g = create(&mut fs, r"\g", true).unwrap().parts().0;
    assert_eq!(fs.rename_handle(r"\g", r"\e", true), Ok(()));
    assert_eq!(fs.resolve_path("/e").unwrap(), g);
    assert_eq!(fs.rename_handle(r"\e", r"\d", true), Err(Status::InternalError));
}

/// The free blocks, the free inodes and the directories of the one group, as its
/// descriptor on the device has them.
fn counts(fs: &Fs) -> (u16, u16, u16) {
    let gd = &fs.dev().contents()[BS..BS + 64];
    let at = |o: usize| u16::from_le_bytes([gd[o], gd[o + 1]]);
    (at(12), at(14), at(16))
}

#[test]
fn what_a_rename_replaces_is_freed() {
    let mut fs = rw();
    let a = create(&mut fs, r"\a", false).unwrap();
    write(&mut fs, &a, &[1u8; 3 * BS], 0).unwrap();
    let b = create(&mut fs, r"\b", false).unwrap();
    write(&mut fs, &b, &[2u8; 2 * BS], 0).unwrap();
    assert_eq!(counts(&fs), (213 - 5, 49 - 2, 0));
    assert_eq!(fs.rename_handle(r"\a", r"\b", true), Ok(()));
    assert_eq!(counts(&fs), (213 - 3, 49 - 1, 0));
    assert_eq!(read(&fs, r"\b"), [1u8; 3 * BS]);
    assert!(fs.inode(b.parts().0).is_err());
    // A symbolic link that holds its target itself has no blocks.
    assert_eq!(fs.rename_handle(r"\b", r"\fast", true), Ok(()));
    assert_eq!(counts(&fs), (213 - 3, 49, 0));
    // A name that is kept replaces nothing.
    assert_eq!(fs.rename_handle(r"\fast", r"\fast", true), Ok(()));
    assert_eq!(counts(&fs), (213 - 3, 49, 0));
    assert_eq!(read(&fs, r"\fast"), [1u8; 3 * BS]);
    // A directory goes with its block, and with the link to its parent.
    create(&mut fs, r"\d", true).unwrap();
    create(&mut fs, r"\e", true).unwrap();
    assert_eq!(fs.inode(2).unwrap().links_count, 4);
    assert_eq!(counts(&fs), (213 - 5, 49 - 2, 2));
    assert_eq!(fs.rename_handle(r"\d", r"\e", true), Ok(()));
    assert_eq!(fs.inode(2).unwrap().links_count, 3);
    assert_eq!(counts(&fs), (213 - 4, 49 - 1, 1));
}

#[test]
fn a_replaced_file_with_other_names_keeps_them() {
    let mut raw = image();
    put_dir(
        &mut raw,
        8,
        &[(2, ".", 2), (2, "..", 2), (12, "hello.txt", 1), (12, "twin", 1), (15, "pipe", 5)],
    );
    put16(&mut raw, 4 * BS + 11 * 256 + 26, 2);
    let mut fs = Ext4Fs::open_rw(MemoryDevice::from_bytes(raw)).expect("mount");
    create(&mut fs, r"\d", true).unwrap();
    let a = create(&mut fs, r"\d\a", false).unwrap().parts().0;
    let before = counts(&fs);
    assert_eq!(fs.inode(12).unwrap().links_count, 2);
    assert_eq!(fs.rename_handle(r"\d\a", r"\twin", true), Ok(()));
    assert_eq!(fs.resolve_path("/twin").unwrap(), a);
    assert_eq!(names(&fs, r"\d"), Vec::<String>::new());
    assert_eq!(fs.inode(12).unwrap().links_count, 1);
    assert_eq!(read(&fs, r"\hello.txt"), b"hello world\n");
    assert_eq!(counts(&fs), before);
}

#[test]
fn a_moved_directory_is_counted_by_its_new_parent() {
    let mut fs = rw();
    let a = create(&mut fs, r"\a", true).unwrap().parts().0;
    let b = create(&mut fs, r"\b", true).unwrap().parts().0;
    create(&mut fs, r"\b\c", true).unwrap();
    let links = |fs: &Fs, num: u32| fs.inode(num).unwrap().links_count;
    assert_eq!((links(&fs, 2), links(&fs, a), links(&fs, b)), (4, 2, 3));
    assert_eq!(fs.rename_handle(r"\a", r"\b\a", false), Ok(()));
    assert_eq!((links(&fs, 2), links(&fs, a), links(&fs, b)), (3, 2, 4));
    // One that replaces another there adds none.
    assert_eq!(fs.rename_handle(r"\b\a", r"\a", false), Ok(()));
    assert_eq!((links(&fs, 2), links(&fs, a), links(&fs, b)), (4, 2, 3));
    assert_eq!(fs.rename_handle(r"\a", r"\b\c", true), Ok(()));
    assert_eq!((links(&fs, 2), links(&fs, a), links(&fs, b)), (3, 2, 3));
    assert_eq!(fs.resolve_path("/b/c").unwrap(), a);
    // A file does not count.
    assert_eq!(fs.rename_handle(r"\hello.txt", r"\b\f", false), Ok(()));
    assert_eq!((links(&fs, 2), links(&fs, b)), (3, 3));
}

#[test]
fn a_moved_directory_leads_to_its_new_parent() {
    let mut fs = rw();
    let a = create(&mut fs, r"\a", true).unwrap().parts().0;
    let b = create(&mut fs, r"\b", true).unwrap().parts().0;
    let f = create(&mut fs, r"\a\f", false).unwrap().parts().0;
    assert_eq!(fs.rename_handle(r"\a", r"\b\c", false), Ok(()));
    assert_eq!(open(&fs, r"\a").err(), Some(Status::ObjectNameNotFound));
    assert_eq!(fs.resolve_path("/b/c").unwrap(), a);
    assert_eq!(fs.resolve_path("/b/c/f").unwrap(), f);
    let moved = fs.inode(a).unwrap();
    assert_eq!(fs.lookup(&moved, "..").unwrap(), Some(b));
    assert_eq!(fs.lookup(&moved, ".").unwrap(), Some(a));
    assert_eq!(fs.lookup(&moved, "f").unwrap(), Some(f));
    let root = fs.inode(2).unwrap();
    assert_eq!(fs.lookup(&root, "b").unwrap(), Some(b));
    assert_eq!(fs.lookup(&root, "hello.txt").unwrap(), Some(12));
}

#[test]
fn paths_lead_to_what_was_created_until_it_is_deleted() {
    let mut fs = rw();
    create(&mut fs, r"\a", true).unwrap();
    create(&mut fs, r"\a\b", true).unwrap();
    let h = create(&mut fs, r"\a\b\c", false).unwrap();
    let num = h.parts().0;
    for path in ["/a/b/c", "//a/./b//c/", "/a/b/c///"] {
        assert_eq!(fs.resolve_path(path).unwrap(), num);
    }
    assert_eq!(read(&fs, r"\hello.txt"), b"hello world\n");
    fs.cleanup_handle_write(&h, Some(r"\a\b\c"), 1);
    for path in ["/a/b/c", "//a/./b//c/", "/a/b/c///"] {
        assert!(matches!(fs.resolve_path(path), Err(Ext4FsError::NotFound(_))));
    }
    assert!(fs.resolve_path("/a/b").is_ok());
    assert_eq!(read(&fs, r"\hello.txt"), b"hello world\n");
}

#[test]
fn files_that_grow_in_turn_keep_their_bytes() {
    let mut fs = rw();
    let a = create(&mut fs, r"\a", false).unwrap();
    let b = create(&mut fs, r"\b", false).unwrap();
    // No two blocks of a file lie next to each other, so that the root of its tree
    // has no room for all of them.
    for i in 0..12u8 {
        let at = i as u64 * BS as u64;
        assert_eq!(write(&mut fs, &a, &[i + 1; BS], at), Ok(BS as u32));
        assert_eq!(write(&mut fs, &b, &[i + 101; BS], at), Ok(BS as u32));
    }
    let of = |k: u8| (0..12 * BS).map(|i| (i / BS) as u8 + k).collect::<Vec<u8>>();
    assert_eq!(read(&fs, r"\a"), of(1));
    assert_eq!(read(&fs, r"\b"), of(101));
    assert_eq!(fs.inode(16).unwrap().block_data[6], 1);

    // Across three of the blocks.
    assert_eq!(write(&mut fs, &a, &[77; 2 * BS], 5 * BS as u64 - 10), Ok(2 * BS as u32));
    let mut expect = of(1);
    expect[5 * BS - 10..7 * BS - 10].fill(77);
    assert_eq!(read(&fs, r"\a"), expect);
    assert_eq!(read(&fs, r"\b"), of(101));

    // Cut in the third block, then made longer: a hole follows the blocks that
    // were kept.
    let mut info = FileInfo::default();
    fs.set_file_size_cb(&a, 2 * BS as u64 + 5, &mut info).unwrap();
    assert_eq!(read(&fs, r"\a"), expect[..2 * BS + 5]);
    assert_eq!(read(&fs, r"\b"), of(101));
    fs.set_file_size_cb(&a, 4 * BS as u64, &mut info).unwrap();
    let data = read(&fs, r"\a");
    assert_eq!(data[..3 * BS], expect[..3 * BS]);
    assert!(data[3 * BS..].iter().all(|&x| x == 0));
    let mut free = VolumeInfo { total_size: 0, free_size: 0, volume_label: String::new() };
    fs.fill_volume_info(&mut free).unwrap();
    // Three blocks and a node of one file, twelve and a node of the other.
    assert_eq!(free.free_size, (213 - 4 - 13) * BS as u64);
}

#[test]
fn a_directory_that_outgrows_its_block_finds_every_name() {
    let mut fs = rw();
    let name = |i: usize| format!("{:0>200}", i);
    let path = |i: usize| format!("\\{}", name(i));
    let mut nums = Vec::new();
    for i in 0..45 {
        match create(&mut fs, &path(i), false).unwrap() {
            FileHandle::File { inode_num, .. } => nums.push(inode_num),
            _ => panic!("a file"),
        }
    }
    assert_eq!(fs.inode(2).unwrap().size, 3 * BS as u64);
    let root = fs.inode(2).unwrap();
    for i in 0..45 {
        assert_eq!(fs.lookup(&root, &name(i)).unwrap(), Some(nums[i]));
    }
    assert_eq!(names(&fs, r"\").len(), 49);

    // One goes, and one gets another name: all others are found as before.
    let h = open(&fs, &path(20)).unwrap();
    fs.cleanup_handle_write(&h, Some(&path(20)), 1);
    assert_eq!(fs.rename_handle(&path(30), r"\short", false), Ok(()));
    let root = fs.inode(2).unwrap();
    for i in 0..45 {
        let expect = if i == 20 || i == 30 { None } else { Some(nums[i]) };
        assert_eq!(fs.lookup(&root, &name(i)).unwrap(), expect);
    }
    assert_eq!(fs.lookup(&root, "short").unwrap(), Some(nums[30]));
    assert_eq!(fs.lookup(&root, "hello.txt").unwrap(), Some(12));
    assert_eq!(names(&fs, r"\").len(), 48);

    // To another directory.
    create(&mut fs, r"\d", true).unwrap();
    assert_eq!(fs.rename_handle(r"\short", r"\d\there", false), Ok(()));
    let root = fs.inode(2).unwrap();
    let d = fs.inode(fs.lookup(&root, "d").unwrap().unwrap()).unwrap();
    assert_eq!(fs.lookup(&root, "short").unwrap(), None);
    assert_eq!(fs.lookup(&d, "there").unwrap(), Some(nums[30]));
    assert_eq!(fs.lookup(&d, "..").unwrap(), Some(2));
}

#[test]
fn a_new_directory_lists_itself_and_its_parent() {
    let mut fs = rw();
    let name = |i: usize| format!("{:0>200}", i);
    let path = |i: usize| format!("\\{}", name(i));
    // The last ones no longer fit into the block that the root directory has.
    for i in 0..20 {
        let num = create(&mut fs, &path(i), true).unwrap().parts().0;
        let dir = fs.inode(num).unwrap();
        let all = fs.read_dir(&dir).unwrap();
        let found: Vec<(u32, &str)> = all.iter().map(|e| (e.inode_num, e.name.as_str())).collect();
        assert_eq!(found, [(num, "."), (2, "..")]);
        let root = fs.inode(2).unwrap();
        assert_eq!(root.links_count, 3 + i as u16);
        assert_eq!(fs.lookup(&root, &name(i)).unwrap(), Some(num));
        assert_eq!(fs.lookup(&root, "hello.txt").unwrap(), Some(12));
    }
    assert_eq!(fs.inode(2).unwrap().size, 2 * BS as u64);
}

#[test]
fn a_new_file_is_empty_and_has_one_link() {
    let mut fs = rw();
    let mut info = FileInfo::default();
    let h = fs.create_handle_at(r"\n", 0, Some(0x1_0000_0007), &mut info).unwrap();
    let (num, i) = h.parts();
    assert_eq!(num, 16);
    assert_eq!(i.mode, 0o100644);
    assert_eq!((i.uid, i.gid, i.size, i.links_count), (0, 0, 0, 1));
    assert_eq!((i.atime, i.mtime, i.ctime), (7, 7, 7));
    assert!(read(&fs, r"\n").is_empty());
    assert_eq!(open(&fs, r"\n").unwrap().parts().0, 16);
}

#[test]
fn times_are_set() {
    let mut fs = rw();
    let h = open(&fs, r"\hello.txt").unwrap();
    let mut info = FileInfo::default();
    let t = |s: u64| (s + 11_644_473_600) * 10_000_000;
    fs.set_basic_info_cb(&h, t(10), t(20), 0, &mut info).unwrap();
    assert_eq!(info.last_access_time, t(10));
    assert_eq!(info.last_write_time, t(20));
    assert_eq!(info.creation_time, t(0));
    assert_eq!(from_filetime(0), 0);
    assert_eq!(from_filetime(1), 0);
    assert_eq!(from_filetime(t(0xFFFF_FFFF)), 0xFFFF_FFFF);
}

#[test]
fn a_read_only_mount_refuses_every_write() {
    let mut fs = ro();
    let h = open(&fs, r"\hello.txt").unwrap();
    let mut info = FileInfo::default();
    let refused = Status::MediaWriteProtected;
    assert_eq!(refused.code(), 0xC000_00A2);
    assert_eq!(create(&mut fs, r"\f", false).err(), Some(refused));
    assert_eq!(create(&mut fs, r"\d", true).err(), Some(refused));
    assert_eq!(write(&mut fs, &h, b"x", 0), Err(refused));
    assert_eq!(write(&mut fs, &h, b"", 0), Err(refused));
    assert_eq!(fs.set_file_size_cb(&h, 0, &mut info), Err(refused));
    assert_eq!(fs.set_basic_info_cb(&h, 1, 1, 1, &mut info), Err(refused));
    assert_eq!(fs.rename_handle(r"\hello.txt", r"\x", true), Err(refused));
    assert_eq!(fs.set_delete_cb(&h, true), Err(refused));
    fs.cleanup_handle_write(&h, Some(r"\hello.txt"), 1);
    assert_eq!(fs.flush_cb(Some(&h), &mut info), Ok(()));
    assert_eq!(fs.dev().contents(), &image()[..]);
}

#[test]
fn links_are_opened_and_encoded() {
    let fs = ro();
    let mut info = FileInfo::default();
    let fast = fs.open_handle(r"\fast", &mut info).unwrap();
    assert_eq!(info.file_attributes, 0x401);
    assert_eq!(info.reparse_tag, 0xA000_000C);
    match &fast {
        FileHandle::Symlink { target, .. } => assert_eq!(target, "hello.txt"),
        _ => unreachable!(),
    }
    let slow = open(&fs, r"\slow").unwrap();
    let long = "/long/name".repeat(8);
    match &slow {
        FileHandle::Symlink { target, .. } => assert_eq!(target, &long),
        _ => unreachable!(),
    }
    let mut buf = [0u8; 512];
    let n = fs.get_reparse_point_data(&slow, &mut buf).unwrap() as usize;
    assert_eq!(buf[..n], encode_symlink_reparse_buffer(&long).unwrap()[..]);
    let mut other = [0u8; 512];
    assert_eq!(fs.get_reparse_point_data_by_name(r"\slow", &mut other), Ok(n as u64));
    assert_eq!(buf, other);
    assert_eq!(fs.get_reparse_point_data(&fast, &mut [0u8; 8]), Err(Status::BufferTooSmall));
    let file = open(&fs, r"\hello.txt").unwrap();
    assert_eq!(fs.get_reparse_point_data(&file, &mut buf), Err(Status::NotAReparsePoint));
    assert_eq!(
        fs.get_reparse_point_data_by_name(r"\hello.txt", &mut buf),
        Err(Status::NotAReparsePoint)
    );
    assert_eq!(open(&fs, r"\pipe").err(), Some(Status::AccessDenied));
    assert_eq!(
        fs.read_file_data(&slow, &mut buf, 0),
        Err(Status::InvalidDeviceRequest)
    );
}

#[test]
fn a_link_whose_target_is_no_text_cannot_be_opened() {
    let mut raw = image();
    raw[42 * BS] = 0xFF;
    let fs = Ext4Fs::open(MemoryDevice::from_bytes(raw)).unwrap();
    assert_eq!(open(&fs, r"\slow").err(), Some(Status::ObjectNameNotFound));
    let i = fs.inode(14).unwrap();
    assert!(matches!(fs.read_symlink_target(&i), Err(Ext4FsError::File(_))));
}

#[test]
fn security_is_the_same_for_every_file() {
    let fs = ro();
    let mut sd = [0xEEu8; 80];
    let s = fs.security_by_name(r"\hello.txt", &mut sd).unwrap();
    assert_eq!((s.reparse, s.sz_security_descriptor, s.attributes), (false, 72, 1));
    assert_eq!(sd[..4], [1, 0, 4, 0x80]);
    assert_eq!(sd[32..36], [0x89, 0, 0x12, 0]);
    assert_eq!(sd[60..72], [1, 1, 0, 0, 0, 0, 0, 1, 0, 0, 0, 0]);
    assert_eq!(sd[72..], [0xEE; 8]);
    let s = fs.security_by_name(r"\fast", &mut []).unwrap();
    assert!(s.reparse);
    assert_eq!(fs.security_by_name(r"\no", &mut sd), Err(Status::ObjectNameNotFound));
}

#[test]
fn a_listing_tells_of_every_file() {
    let fs = ro();
    let root = open(&fs, r"\").unwrap();
    let list = fs.read_dir_entries(&root).unwrap();
    assert_eq!(list[0].info.file_size, 12);
    assert_eq!(list[0].info.allocation_size, 512);
    assert_eq!(list[0].info.index_number, 12);
    assert_eq!(list[1].info.reparse_tag, 0xA000_000C);
    let file = open(&fs, r"\hello.txt").unwrap();
    assert_eq!(fs.read_dir_entries(&file).err(), Some(Status::NotADirectory));
    let mut info = FileInfo::default();
    fs.file_info_for_handle(&file, &mut info).unwrap();
    assert_eq!(info, list[0].info);
}

#[test]
fn free_counts_reach_the_superblock() {
    let mut fs = rw();
    let h = create(&mut fs, r"\f", false).unwrap();
    write(&mut fs, &h, &[1u8; 100], 0).unwrap();
    let disk = fs.dev().contents();
    assert_eq!(disk[1024 + 12..1024 + 16], 212u32.to_le_bytes());
    assert_eq!(disk[1024 + 16..1024 + 20], 48u32.to_le_bytes());
    assert_eq!(parse(fs.dev()).unwrap().volume_name, "peng");
}

fn parse_reparse_header(buf: &[u8]) -> (u32, u16, u16) {
    let tag = u32::from_le_bytes(buf[0..4].try_into().unwrap());
    let dlen = u16::from_le_bytes(buf[4..6].try_into().unwrap());
    let rsrvd = u16::from_le_bytes(buf[6..8].try_into().unwrap());
    (tag, dlen, rsrvd)
}

fn parse_symlink_fields(buf: &[u8]) -> (u16, u16, u16, u16, u32) {
    let f = |o: usize| u16::from_le_bytes(buf[o..o + 2].try_into().unwrap());
    (f(8), f(10), f(12), f(14), u32::from_le_bytes(buf[16..20].try_into().unwrap()))
}

fn decode_utf16(buf: &[u8]) -> String {
    let u16s: Vec<u16> =
        buf.chunks_exact(2).map(|c| u16::from_le_bytes([c[0], c[1]])).collect();
    String::from_utf16_lossy(&u16s)
}

#[test]
fn absolute_symlink_flag_zero() {
    let buf = encode_symlink_reparse_buffer("/hello.txt").unwrap();
    let (_so, _sl, _po, _pl, flags) = parse_symlink_fields(&buf);
    assert_eq!(flags, 0, "absolute symlink must not set SYMLINK_FLAG_RELATIVE");
}

#[test]
fn relative_symlink_flag_set() {
    let buf = encode_symlink_reparse_buffer("../sibling.txt").unwrap();
    let (_so, _sl, _po, _pl, flags) = parse_symlink_fields(&buf);
    assert_eq!(flags, 1, "relative symlink must set SYMLINK_FLAG_RELATIVE");
}

#[test]
fn reparse_tag_correct() {
    let buf = encode_symlink_reparse_buffer("/foo").unwrap();
    let (tag, _, _) = parse_reparse_header(&buf);
    assert_eq!(tag, 0xA000_000C);
}

#[test]
fn substitute_name_round_trips() {
    let target = "/hello/world.txt";
    let buf = encode_symlink_reparse_buffer(target).unwrap();
    let (sub_off, sub_len, prn_off, prn_len, _flags) = parse_symlink_fields(&buf);
    let path_start = 20usize;
    let at = |off: u16, len: u16| {
        decode_utf16(&buf[path_start + off as usize..path_start + off as usize + len as usize])
    };
    assert_eq!(at(sub_off, sub_len), target.replace('/', "\\"));
    assert_eq!(at(prn_off, prn_len), target.replace('/', "\\"));
}

#[test]
fn buffer_size_consistent() {
    let buf = encode_symlink_reparse_buffer("/a/b/c").unwrap();
    let (_tag, dlen, _) = parse_reparse_header(&buf);
    assert_eq!(buf.len(), 8 + dlen as usize);
}

#[test]
fn too_long_target_returns_error() {
    let long_target: String = "a".repeat(16381);
    let result = encode_symlink_reparse_buffer(&long_target);
    assert!(result.is_err(), "expected error for oversized symlink target");
    assert_eq!(result, Err(Status::NameTooLong));
    assert!(encode_symlink_reparse_buffer(&"a".repeat(16380)).is_ok());
}

#[test]
fn targets_outside_the_first_plane_take_two_units() {
    let buf = encode_symlink_reparse_buffer("\u{1F427}/x").unwrap();
    assert_eq!(buf[20..28], [0x3D, 0xD8, 0x27, 0xDC, b'\\', 0, b'x', 0]);
}

#[test]
fn a_file_behind_a_deleted_record_is_deleted() {
    let mut raw = image();
    put_dir(
        &mut raw,
        8,
        &[(2, ".", 2), (2, "..", 2), (0, "gone", 1), (12, "hello.txt", 1), (13, "fast", 7)],
    );
    let mut fs = Ext4Fs::open_rw(MemoryDevice::from_bytes(raw)).expect("mount");
    let h = open(&fs, r"\hello.txt").unwrap();
    fs.cleanup_handle_write(&h, Some(r"\hello.txt"), 1);
    assert_eq!(open(&fs, r"\hello.txt").err(), Some(Status::ObjectNameNotFound));
    assert_eq!(names(&fs, r"\"), ["fast"]);
}

#[test]
fn a_write_past_the_end_leaves_a_hole() {
    let mut fs = rw();
    let h = create(&mut fs, r"\holes", false).unwrap();
    let num = h.parts().0;
    assert_eq!(write(&mut fs, &h, b"x", 8192), Ok(1));
    let at = |fs: &Fs, l: u64| lookup_block(fs.dev(), fs.sb(), &fs.inode(num).unwrap(), l).unwrap();
    assert_eq!((at(&fs, 0), at(&fs, 1)), (None, None));
    let p = at(&fs, 2).expect("block") as usize;
    assert_eq!(fs.dev().contents()[p * BS], b'x');
    let mut expect = vec![0u8; 8193];
    expect[8192] = b'x';
    assert_eq!(read(&fs, r"\holes"), expect);
    // Into the hole, and far behind it.
    assert_eq!(write(&mut fs, &h, b"abc", 4094), Ok(3));
    expect[4094..4097].copy_from_slice(b"abc");
    assert_eq!(read(&fs, r"\holes"), expect);
    assert_eq!(write(&mut fs, &h, b"end", 100 * BS as u64), Ok(3));
    expect.resize(100 * BS, 0);
    expect.extend_from_slice(b"end");
    assert_eq!(read(&fs, r"\holes"), expect);
    assert_eq!(at(&fs, 50), None);
    assert_eq!(read(&fs, r"\hello.txt"), b"hello world\n");
}

#[test]
fn blocks_go_in_in_any_order() {
    let mut fs = rw();
    let h = create(&mut fs, r"\f", false).unwrap();
    let num = h.parts().0;
    let mut expect = vec![0u8; 40 * BS];
    // Every other block, the last ones first, so that no two can be joined.
    for i in (0..40).rev().filter(|i| i % 2 == 1) {
        assert_eq!(write(&mut fs, &h, &[i as u8 + 1; BS], (i * BS) as u64), Ok(BS as u32));
        expect[i * BS..(i + 1) * BS].fill(i as u8 + 1);
    }
    assert_eq!(read(&fs, r"\f"), expect);
    // 20 blocks of data, and the nodes that the root leads to.
    let i = fs.inode(num).unwrap();
    assert!(i.block_data[6] >= 1);
    let nodes = i.block_data[2] as u64;
    assert_eq!(sectors(&fs, num), (20 + nodes) * 8);
    for i in (0..40).filter(|i| i % 2 == 0) {
        assert_eq!(write(&mut fs, &h, &[i as u8 + 1; BS], (i * BS) as u64), Ok(BS as u32));
        expect[i * BS..(i + 1) * BS].fill(i as u8 + 1);
    }
    assert_eq!(read(&fs, r"\f"), expect);
    // Cut, it counts what is left.
    let mut info = FileInfo::default();
    fs.set_file_size_cb(&h, 9 * BS as u64, &mut info).unwrap();
    assert_eq!(read(&fs, r"\f"), expect[..9 * BS]);
    let nodes = fs.inode(num).unwrap().block_data[2] as u64;
    assert_eq!(sectors(&fs, num), (9 + nodes) * 8);
}

/// The count of sectors in the record of an inode.
fn sectors(fs: &Fs, num: u32) -> u64 {
    let o = 4 * BS + (num as usize - 1) * 256 + 28;
    let b = &fs.dev().contents()[o..o + 4];
    u32::from_le_bytes([b[0], b[1], b[2], b[3]]) as u64
}

#[test]
fn a_deleted_directory_gives_all_back() {
    let mut fs = rw();
    let d = create(&mut fs, r"\d", true).unwrap();
    let num = d.parts().0;
    assert_eq!(fs.inode(num).unwrap().links_count, 2);
    fs.cleanup_handle_write(&d, Some(r"\d"), 1);
    assert_eq!(fs.inode(2).unwrap().links_count, 2);
    let mut info = VolumeInfo { total_size: 0, free_size: 0, volume_label: String::new() };
    fs.fill_volume_info(&mut info).unwrap();
    assert_eq!(info.free_size, 213 * BS as u64);
    assert_eq!(create(&mut fs, r"\e", true).unwrap().parts().0, num);
    assert!(names(&fs, r"\e").is_empty());
}

#[test]
fn a_name_may_be_kept() {
    let mut fs = rw();
    assert_eq!(fs.rename_handle(r"\hello.txt", r"\hello.txt", true), Ok(()));
    assert_eq!(read(&fs, r"\hello.txt"), b"hello world\n");
    assert_eq!(names(&fs, r"\"), ["hello.txt", "fast", "slow", "pipe"]);
}

#[test]
fn a_flush_writes_nothing() {
    let mut fs = rw();
    let h = create(&mut fs, r"\f", false).unwrap();
    write(&mut fs, &h, &[1u8; 3 * BS], 0).unwrap();
    let before = fs.dev().contents().to_vec();
    // The counts of the group are there without it.
    let gd = &before[BS..BS + 64];
    assert_eq!(u16::from_le_bytes([gd[12], gd[13]]), 213 - 3);
    assert_eq!(u16::from_le_bytes([gd[14], gd[15]]), 49 - 1);
    let mut info = FileInfo::default();
    assert_eq!(fs.flush_cb(None, &mut info), Ok(()));
    assert_eq!(fs.dev().contents(), &before[..]);
    assert_eq!(read(&fs, r"\f"), [1u8; 3 * BS]);

    let mut fs = ro();
    assert_eq!(fs.flush_cb(None, &mut info), Ok(()));
    assert_eq!(fs.dev().contents(), &image()[..]);
}
