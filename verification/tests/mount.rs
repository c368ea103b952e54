//! Mounting for writing, unmounting, and crashes in between.
use std::sync::atomic::{AtomicU32, Ordering};
use std::sync::Arc;

use pengwin::allocator::{inode_alloc, Allocator};
use pengwin::block_device::{BlockDevice, BlockDeviceError, Bytes, MemoryDevice};
use pengwin::dir::lookup;
use pengwin::dir_write::{
    dir_add_entry, dir_file_type, dir_remove_entry, dir_rename, hard_link,
};
use pengwin::extent_write::extent_truncate;
use pengwin::file::FileReader;
use pengwin::file_write::write_file_data;
use pengwin::group_desc::GroupDescTable;
use pengwin::inode::read_inode;
use pengwin::inode_write::{update_inode, InodeUpdate};
use pengwin::journal::check_and_recover;
use pengwin::journal::mount::{Ext4FsRw, MountError};
use pengwin::superblock::{parse, state};

const BS: usize = 4096;
const BLOCKS: usize = 256;

fn put16(s: &mut [u8], off: usize, v: u16) {
    s[off..off + 2].copy_from_slice(&v.to_le_bytes());
}

fn put32(s: &mut [u8], off: usize, v: u32) {
    s[off..off + 4].copy_from_slice(&v.to_le_bytes());
}

fn put_be(s: &mut [u8], off: usize, v: u32) {
    s[off..off + 4].copy_from_slice(&v.to_be_bytes());
}

fn put_inode(s: &mut [u8], num: usize, mode: u16, size: u32, links: u16, extent: Option<(u16, u32)>) {
    let o = 4 * BS + (num - 1) * 256;
    put16(s, o, mode);
    put32(s, o + 4, size);
    put16(s, o + 26, links);
    put32(s, o + 32, 0x80000);
    put16(s, o + 40, 0xF30A);
    put16(s, o + 44, 4);
    if let Some((len, phys)) = extent {
        put16(s, o + 42, 1);
        put16(s, o + 56, len);
        put32(s, o + 60, phys);
    }
}

fn put_dir(s: &mut [u8], block: usize, entries: &[(u32, &str, u8)]) {
    let mut o = block * BS;
    let end = o + BS;
    for (i, (num, name, kind)) in entries.iter().enumerate() {
        let len = if i + 1 == entries.len() { end - o } else { (8 + name.len() + 3) / 4 * 4 };
        put32(s, o, *num);
        put16(s, o + 4, len as u16);
        s[o + 6] = name.len() as u8;
        s[o + 7] = *kind;
        s[o + 8..o + 8 + name.len()].copy_from_slice(name.as_bytes());
        o += len;
    }
}

/// A volume of 256 blocks. Block 1 holds the descriptor of its one group, 2 and
/// 3 the bitmaps, 4 to 7 the inodes, 8 the root directory, 9 to 40 the journal.
fn image() -> Vec<u8> {
    let mut s = vec![0u8; BLOCKS * BS];
    let sb = 1024;
    put32(&mut s, sb, 64);
    put32(&mut s, sb + 4, BLOCKS as u32);
    put32(&mut s, sb + 12, 213);
    put32(&mut s, sb + 16, 49);
    put32(&mut s, sb + 24, 2);
    put32(&mut s, sb + 32, BLOCKS as u32);
    put32(&mut s, sb + 40, 64);
    put16(&mut s, sb + 56, 0xEF53);
    put16(&mut s, sb + 58, 1);
    put32(&mut s, sb + 64, 1);
    put16(&mut s, sb + 88, 256);
    put32(&mut s, sb + 96, 0x42);
    s[sb + 104..sb + 108].copy_from_slice(&[1, 2, 3, 4]);
    s[sb + 120..sb + 124].copy_from_slice(b"peng");
    put16(&mut s, sb + 254, 64);
    let gd = BS;
    put32(&mut s, gd, 2);
    put32(&mut s, gd + 4, 3);
    put32(&mut s, gd + 8, 4);
    put16(&mut s, gd + 12, 213);
    put16(&mut s, gd + 14, 49);
    s[2 * BS..2 * BS + 5].fill(0xFF);
    s[2 * BS + 5] = 0x07;
    s[3 * BS] = 0xFF;
    s[3 * BS + 1] = 0x7F;
    put_inode(&mut s, 2, 0o040755, BS as u32, 2, Some((1, 8)));
    put_inode(&mut s, 8, 0o100600, 32 * BS as u32, 1, Some((32, 9)));
    put_inode(&mut s, 12, 0o100644, 12, 1, Some((1, 41)));
    put_inode(&mut s, 13, 0o120777, 9, 1, None);
    let o = 4 * BS + 12 * 256 + 40;
    s[o..o + 60].fill(0);
    s[o..o + 9].copy_from_slice(b"hello.txt");
    put_inode(&mut s, 14, 0o120777, 80, 1, Some((1, 42)));
    put_inode(&mut s, 15, 0o010644, 0, 1, None);
    put_dir(
        &mut s,
        8,
        &[
            (2, ".", 2),
            (2, "..", 2),
            (12, "hello.txt", 1),
            (13, "fast", 7),
            (14, "slow", 7),
            (15, "pipe", 5),
        ],
    );
    s[41 * BS..41 * BS + 12].copy_from_slice(b"hello world\n");
    for i in 0..8 {
        s[42 * BS + 10 * i..42 * BS + 10 * i + 10].copy_from_slice(b"/long/name");
    }
    let j = 9 * BS;
    put_be(&mut s, j, 0xC03B_3998);
    put_be(&mut s, j + 4, 4);
    put_be(&mut s, j + 12, BS as u32);
    put_be(&mut s, j + 16, 32);
    put_be(&mut s, j + 20, 1);
    put_be(&mut s, j + 24, 1);
    s
}

/// Fails writes once it has served a number of them. What was written stays on
/// the medium, which outlives the device.
struct FaultInjectDevice {
    inner: MemoryDevice,
    fault_on_write: Arc<AtomicU32>,
    write_count: Arc<AtomicU32>,
}

impl FaultInjectDevice {
    fn new(inner: MemoryDevice, fault_after: u32) -> Self {
        FaultInjectDevice {
            inner,
            fault_on_write: Arc::new(AtomicU32::new(fault_after)),
            write_count: Arc::new(AtomicU32::new(0)),
        }
    }

    fn arm(&self, fault_after: u32) {
        self.fault_on_write.store(fault_after, Ordering::SeqCst);
        self.write_count.store(0, Ordering::SeqCst);
    }
}

impl BlockDevice for FaultInjectDevice {
    // Only contracts speak of these three.
    fn bytes(&self) -> Bytes {
        unreachable!()
    }
    fn reliable(&self) -> bool {
        unreachable!()
    }
    fn synced(&self) -> bool {
        unreachable!()
    }

    fn read_sector(&self, idx: u64, buf: &mut [u8; 512]) -> Result<(), BlockDeviceError> {
        self.inner.read_sector(idx, buf)
    }

    fn sector_count(&self) -> u64 {
        self.inner.sector_count()
    }

    fn write_sector(&mut self, idx: u64, buf: &[u8; 512]) -> Result<(), BlockDeviceError> {
        let count = self.write_count.fetch_add(1, Ordering::SeqCst);
        if count >= self.fault_on_write.load(Ordering::SeqCst) {
            return Err(BlockDeviceError::Io("injected fault".to_string()));
        }
        self.inner.write_sector(idx, buf)
    }

    fn flush(&mut self) -> Result<(), BlockDeviceError> {
        self.inner.flush()
    }
}

fn create_in_root<D: BlockDevice>(fs: &mut Ext4FsRw<D>, name: &str, dir: bool) -> bool {
    let mut txn = fs.journal.begin_transaction();
    let num = {
        let mut alloc = Allocator::new(&fs.sb, &mut fs.gdt);
        match alloc.alloc_inode(&mut fs.dev, &mut txn, dir, 0) {
            Ok(n) => n,
            Err(_) => return false,
        }
    };
    let mode = if dir { 0o040755 } else { 0o100644 };
    if inode_alloc::init_inode(&mut fs.dev, &fs.sb, &fs.gdt, &mut txn, num, mode, 0, 0).is_err() {
        return false;
    }
    let kind = if dir { dir_file_type::DIR } else { dir_file_type::REG_FILE };
    let mut entries = vec![(2u32, name, num, kind)];
    if dir {
        entries.push((num, ".", num, kind));
        entries.push((num, "..", 2, kind));
    }
    for (parent, name, child, kind) in entries {
        let snap = fs.gdt.clone();
        let mut alloc = Allocator::new(&fs.sb, &mut fs.gdt);
        let r = dir_add_entry(
            &mut fs.dev, &fs.sb, &snap, &mut alloc, &mut txn, parent, name, child, kind,
        );
        if r.is_err() {
            return false;
        }
    }
    let update = InodeUpdate::default().with_mtime(0).with_ctime(0);
    if update_inode(&fs.dev, &fs.sb, &fs.gdt, &mut txn, 2, update).is_err() {
        return false;
    }
    fs.journal.commit(&mut fs.dev, txn).is_ok()
}

fn assert_cleanly_unmounted(dev: &MemoryDevice) {
    let sb = parse(dev).expect("parse superblock");
    assert!(sb.state & state::VALID_FS != 0, "VALID_FS not set (s_state={:#06x})", sb.state);
    assert!(sb.state & state::ERROR_FS == 0, "ERROR_FS set (s_state={:#06x})", sb.state);
}

fn found(dev: &MemoryDevice, name: &str) -> Option<u32> {
    let sb = parse(dev).expect("parse sb");
    let gdt = GroupDescTable::load(dev, &sb).expect("load gdt");
    let root = read_inode(dev, &sb, &gdt, 2).expect("root inode");
    lookup(dev, &sb, &gdt, &root, name).expect("lookup")
}

#[test]
fn dirty_flag_cleared_after_create_file() {
    let mut fs = Ext4FsRw::open_rw(MemoryDevice::from_bytes(image())).expect("mount");
    assert!(!parse(&fs.dev).unwrap().was_cleanly_unmounted());
    assert!(create_in_root(&mut fs, "task01_testfile.txt", false));
    let dev = fs.unmount().expect("unmount");
    assert_cleanly_unmounted(&dev);
    assert_eq!(found(&dev, "task01_testfile.txt"), Some(16));
}

#[test]
fn dirty_flag_cleared_after_create_dir() {
    let mut fs = Ext4FsRw::open_rw(MemoryDevice::from_bytes(image())).expect("mount");
    assert!(create_in_root(&mut fs, "task01_testdir", true));
    let dev = fs.unmount().expect("unmount");
    assert_cleanly_unmounted(&dev);
    assert_eq!(found(&dev, "task01_testdir"), Some(16));
}

#[test]
fn dirty_flag_cleared_after_write_data() {
    let mut fs = Ext4FsRw::open_rw(MemoryDevice::from_bytes(image())).expect("mount");
    assert!(create_in_root(&mut fs, "task01_write.txt", false));
    let num = found(&fs.dev, "task01_write.txt").expect("file not found");
    let inode = read_inode(&fs.dev, &fs.sb, &fs.gdt, num).expect("file inode");

    let payload = b"hello dirty-flag test";
    let mut txn = fs.journal.begin_transaction();
    {
        let mut alloc = Allocator::new(&fs.sb, &mut fs.gdt);
        write_file_data(
            &mut fs.dev, &fs.sb, &mut alloc, &mut txn, num, &inode, 0, payload,
        )
        .expect("write_file_data");
    }
    update_inode(
        &fs.dev,
        &fs.sb,
        &fs.gdt,
        &mut txn,
        num,
        InodeUpdate::default().with_size(payload.len() as u64),
    )
    .expect("update inode size");
    fs.journal.commit(&mut fs.dev, txn).expect("commit");

    let inode = read_inode(&fs.dev, &fs.sb, &fs.gdt, num).expect("file inode");
    let mut buf = [0u8; 64];
    let n = FileReader::new(&fs.dev, &fs.sb, &inode).unwrap().read(&mut buf).unwrap();
    assert_eq!(&buf[..n], payload);

    let dev = fs.unmount().expect("unmount");
    assert_cleanly_unmounted(&dev);
}

/// Recover the volume after a crash, as the next mount does.
fn remount_and_check(dev: &mut MemoryDevice) {
    let sb = parse(dev).expect("parse superblock");
    let gdt = GroupDescTable::load(dev, &sb).expect("load gdt");
    check_and_recover(dev, &sb, &gdt).expect("check_and_recover");
    let sb2 = parse(dev).expect("re-parse superblock");
    assert!(!sb2.state_has_error(), "ERROR_FS set after journal replay");
}

/// What is on the medium after `run` was cut off.
fn crash(fault_after: u32, run: impl FnOnce(&mut Ext4FsRw<FaultInjectDevice>)) -> MemoryDevice {
    let dev = FaultInjectDevice::new(MemoryDevice::from_bytes(image()), fault_after);
    let mut fs = Ext4FsRw::open_rw(dev).expect("mount");
    run(&mut fs);
    MemoryDevice::from_bytes(fs.dev.inner.contents().to_vec())
}

#[test]
fn crash_before_commit_block() {
    let mut dev = crash(4, |fs| {
        assert!(!create_in_root(fs, "crash_pre_commit.txt", false));
    });
    remount_and_check(&mut dev);
    assert!(
        found(&dev, "crash_pre_commit.txt").is_none(),
        "file should not exist: transaction never committed"
    );
}

#[test]
fn crash_after_commit_block() {
    let mut dev = crash(u32::MAX, |fs| {
        assert!(create_in_root(fs, "crash_post_commit.txt", false));
        fs.dev.arm(0);
    });
    remount_and_check(&mut dev);
    assert!(
        found(&dev, "crash_post_commit.txt").is_some(),
        "file must exist after journal replay of committed transaction"
    );
}

#[test]
fn crash_during_checkpoint() {
    let mut dev = crash(u32::MAX, |fs| {
        assert!(create_in_root(fs, "crash_checkpoint.txt", false));
        fs.dev.arm(1);
        let blocks = vec![(200u64, vec![1u8; BS])];
        assert!(fs.journal.checkpoint(&mut fs.dev, &blocks).is_err());
    });
    remount_and_check(&mut dev);
    assert!(found(&dev, "crash_checkpoint.txt").is_some());
}

#[test]
fn crash_before_dirty_flag_cleared() {
    let mut dev = crash(u32::MAX, |fs| {
        assert!(create_in_root(fs, "dirty_flag_crash.txt", false));
        fs.dev.arm(0);
    });
    assert!(!parse(&dev).unwrap().was_cleanly_unmounted());
    remount_and_check(&mut dev);
    assert!(
        found(&dev, "dirty_flag_crash.txt").is_some(),
        "committed file must survive crash before dirty-flag clear"
    );
}

#[test]
fn every_crash_in_a_create_leaves_a_sound_root() {
    for after in 2..200u32 {
        let mut done = false;
        let mut dev = crash(after, |fs| {
            done = create_in_root(fs, "new.txt", false);
        });
        remount_and_check(&mut dev);
        assert_eq!(found(&dev, "hello.txt"), Some(12));
        if done {
            assert_eq!(found(&dev, "new.txt"), Some(16));
        }
    }
}

#[test]
fn a_volume_with_errors_is_not_mounted() {
    let mut raw = image();
    put16(&mut raw, 1024 + 58, 2);
    let r = Ext4FsRw::open_rw(MemoryDevice::from_bytes(raw));
    assert!(matches!(r.err(), Some(MountError::FilesystemError(_))));
}

/// A file of the root directory, as the mounted volume has it.
fn num_of<D: BlockDevice>(fs: &Ext4FsRw<D>, name: &str) -> Option<u32> {
    let root = read_inode(&fs.dev, &fs.sb, &fs.gdt, 2).expect("root inode");
    lookup(&fs.dev, &fs.sb, &fs.gdt, &root, name).expect("lookup")
}

fn put_data(fs: &mut Ext4FsRw<MemoryDevice>, num: u32, data: &[u8]) {
    let inode = read_inode(&fs.dev, &fs.sb, &fs.gdt, num).expect("inode");
    let mut txn = fs.journal.begin_transaction();
    let mut alloc = Allocator::new(&fs.sb, &mut fs.gdt);
    write_file_data(&mut fs.dev, &fs.sb, &mut alloc, &mut txn, num, &inode, 0, data)
        .expect("write_file_data");
    let update = InodeUpdate::default().with_size(data.len() as u64);
    update_inode(&fs.dev, &fs.sb, &fs.gdt, &mut txn, num, update).expect("update size");
    fs.journal.commit(&mut fs.dev, txn).expect("commit");
}

fn remove(fs: &mut Ext4FsRw<MemoryDevice>, name: &str) {
    let mut txn = fs.journal.begin_transaction();
    let num = dir_remove_entry(&fs.dev, &fs.sb, &fs.gdt, &mut txn, 2, name).expect("remove");
    let links = read_inode(&fs.dev, &fs.sb, &fs.gdt, num).expect("inode").links_count - 1;
    let update = InodeUpdate::default().with_links_count(links);
    update_inode(&fs.dev, &fs.sb, &fs.gdt, &mut txn, num, update).expect("update links");
    if links == 0 {
        let mut alloc = Allocator::new(&fs.sb, &mut fs.gdt);
        alloc.free_inode(&mut fs.dev, &mut txn, num).expect("free_inode");
    }
    fs.journal.commit(&mut fs.dev, txn).expect("commit");
}

fn rename(fs: &mut Ext4FsRw<MemoryDevice>, from: &str, to: &str) {
    let mut txn = fs.journal.begin_transaction();
    let snap = fs.gdt.clone();
    let mut alloc = Allocator::new(&fs.sb, &mut fs.gdt);
    dir_rename(&mut fs.dev, &fs.sb, &snap, &mut alloc, &mut txn, 2, from, 2, to).expect("rename");
    fs.journal.commit(&mut fs.dev, txn).expect("commit");
}

fn data_of(dev: &MemoryDevice, num: u32) -> Vec<u8> {
    let sb = parse(dev).expect("parse sb");
    let gdt = GroupDescTable::load(dev, &sb).expect("load gdt");
    let inode = read_inode(dev, &sb, &gdt, num).expect("inode");
    let mut buf = vec![0u8; inode.size as usize];
    let mut reader = FileReader::new(dev, &sb, &inode).expect("reader");
    let mut n = 0;
    while n < buf.len() {
        n += reader.read(&mut buf[n..]).expect("read");
    }
    buf
}

fn mounted() -> Ext4FsRw<MemoryDevice> {
    Ext4FsRw::open_rw(MemoryDevice::from_bytes(image())).expect("mount")
}

#[test]
fn a_deleted_file_is_gone_after_unmount() {
    let mut fs = mounted();
    assert!(create_in_root(&mut fs, "to_delete.txt", false));
    remove(&mut fs, "to_delete.txt");
    let dev = fs.unmount().expect("unmount");
    assert_cleanly_unmounted(&dev);
    assert_eq!(found(&dev, "to_delete.txt"), None);
    assert_eq!(found(&dev, "hello.txt"), Some(12));
}

#[test]
fn a_renamed_file_is_found_after_unmount() {
    let mut fs = mounted();
    assert!(create_in_root(&mut fs, "before_rename.txt", false));
    let num = num_of(&fs, "before_rename.txt");
    assert!(num.is_some());
    rename(&mut fs, "before_rename.txt", "after_rename.txt");
    let dev = fs.unmount().expect("unmount");
    assert_cleanly_unmounted(&dev);
    assert_eq!(found(&dev, "before_rename.txt"), None);
    assert_eq!(found(&dev, "after_rename.txt"), num);
}

#[test]
fn written_data_is_there_after_unmount() {
    for data in [b"small payload".to_vec(), vec![0xABu8; 3 * 4096]] {
        let mut fs = mounted();
        assert!(create_in_root(&mut fs, "data.bin", false));
        let num = num_of(&fs, "data.bin").unwrap();
        put_data(&mut fs, num, &data);
        let dev = fs.unmount().expect("unmount");
        assert_cleanly_unmounted(&dev);
        assert_eq!(data_of(&dev, num), data);
    }
}

#[test]
fn a_hard_link_leads_to_its_target_after_unmount() {
    let mut fs = mounted();
    assert!(create_in_root(&mut fs, "link_target.txt", false));
    let num = num_of(&fs, "link_target.txt").unwrap();
    let mut txn = fs.journal.begin_transaction();
    let snap = fs.gdt.clone();
    let mut alloc = Allocator::new(&fs.sb, &mut fs.gdt);
    hard_link(&mut fs.dev, &fs.sb, &snap, &mut alloc, &mut txn, num, 2, "link_alias.txt")
        .expect("hard_link");
    fs.journal.commit(&mut fs.dev, txn).expect("commit");
    let dev = fs.unmount().expect("unmount");
    assert_eq!(found(&dev, "link_target.txt"), Some(num));
    assert_eq!(found(&dev, "link_alias.txt"), Some(num));
    let sb = parse(&dev).unwrap();
    let gdt = GroupDescTable::load(&dev, &sb).unwrap();
    assert_eq!(read_inode(&dev, &sb, &gdt, num).unwrap().links_count, 2);
}

#[test]
fn a_truncated_file_keeps_its_start_after_unmount() {
    let mut fs = mounted();
    assert!(create_in_root(&mut fs, "truncate_me.bin", false));
    let num = num_of(&fs, "truncate_me.bin").unwrap();
    put_data(&mut fs, num, &[0xCDu8; 3 * 4096]);
    let free = fs.gdt.get(0).unwrap().free_blocks_count;
    let mut txn = fs.journal.begin_transaction();
    let mut alloc = Allocator::new(&fs.sb, &mut fs.gdt);
    extent_truncate(&mut fs.dev, &fs.sb, &mut alloc, &mut txn, num, 1).expect("truncate");
    let update = InodeUpdate::default().with_size(4096);
    update_inode(&fs.dev, &fs.sb, &fs.gdt, &mut txn, num, update).expect("update size");
    fs.journal.commit(&mut fs.dev, txn).expect("commit");
    assert_eq!(fs.gdt.get(0).unwrap().free_blocks_count, free + 2);
    let dev = fs.unmount().expect("unmount");
    assert_eq!(data_of(&dev, num), [0xCDu8; 4096]);
}

#[test]
fn random_operations_are_kept_over_mounts() {
    let mut seed = 42u64;
    let mut next = || -> usize {
        seed ^= seed << 13;
        seed ^= seed >> 7;
        seed ^= seed << 17;
        seed as u32 as usize
    };
    let mut dev = MemoryDevice::from_bytes(image());
    let mut files: Vec<(String, Vec<u8>)> = Vec::new();
    let mut dirs: Vec<String> = Vec::new();
    for i in 0..100 {
        let mut fs = Ext4FsRw::open_rw(dev).expect("mount");
        let op = next() % 5;
        if op == 0 && files.len() < 20 {
            let name = format!("f_{}", i);
            assert!(create_in_root(&mut fs, &name, false));
            files.push((name, Vec::new()));
        } else if op == 4 && dirs.len() < 10 {
            let name = format!("d_{}", i);
            assert!(create_in_root(&mut fs, &name, true));
            dirs.push(name);
        } else if !files.is_empty() {
            let k = next() % files.len();
            if op == 1 {
                let data = vec![0x42u8; next() % 4096 + 1];
                let num = num_of(&fs, &files[k].0).unwrap();
                put_data(&mut fs, num, &data);
                files[k].1 = data;
            } else if op == 2 {
                remove(&mut fs, &files[k].0);
                files.remove(k);
            } else {
                let to = format!("r_{}", i);
                rename(&mut fs, &files[k].0, &to);
                files[k].0 = to;
            }
        }
        dev = fs.unmount().expect("unmount");
        assert_cleanly_unmounted(&dev);
        for (name, data) in &files {
            let num = found(&dev, name).expect("file");
            assert_eq!(&data_of(&dev, num), data);
        }
        for name in &dirs {
            assert!(found(&dev, name).is_some());
        }
    }
    assert!(files.len() + dirs.len() > 5);
    assert_eq!(data_of(&dev, 12), b"hello world\n");
}

#[test]
fn the_counts_of_a_group_reach_the_device() {
    for wide in [false, true] {
        let mut raw = image();
        put32(&mut raw, 1024 + 96, if wide { 0xC2 } else { 0x42 });
        put16(&mut raw, BS + 16, 7);
        let mut fs = Ext4FsRw::open_rw(MemoryDevice::from_bytes(raw)).expect("mount");
        assert!(create_in_root(&mut fs, "d", true));
        assert!(create_in_root(&mut fs, "f", false));
        let num = num_of(&fs, "f").unwrap();
        put_data(&mut fs, num, &[1u8; 5 * 4096]);
        let kept = *fs.gdt.get(0).unwrap();
        assert_eq!((kept.free_blocks_count, kept.free_inodes_count), (213 - 6, 49 - 2));
        let dev = fs.unmount().expect("unmount");
        let sb = parse(&dev).unwrap();
        let gdt = GroupDescTable::load(&dev, &sb).unwrap();
        let d = gdt.get(0).unwrap();
        assert_eq!((d.free_blocks_count, d.free_inodes_count), (213 - 6, 49 - 2));
        assert_eq!((d.block_bitmap, d.inode_bitmap, d.inode_table), (2, 3, 4));
        // One directory more.
        assert_eq!(dev.contents()[BS + 16..BS + 18], [8, 0]);
        assert_eq!(found(&dev, "d"), Some(16));
    }

    // Descriptors with checksums stay as they are.
    let mut raw = image();
    put32(&mut raw, 1024 + 100, 0x10);
    let mut fs = Ext4FsRw::open_rw(MemoryDevice::from_bytes(raw)).expect("mount");
    assert!(create_in_root(&mut fs, "f", false));
    let dev = fs.unmount().expect("unmount");
    let gdt = GroupDescTable::load(&dev, &parse(&dev).unwrap()).unwrap();
    assert_eq!(gdt.get(0).unwrap().free_inodes_count, 49);
}

/// The image with a log that rewrites the descriptors: it leaves 100 blocks and 40
/// inodes free.
fn logged_counts() -> Vec<u8> {
    let mut raw = image();
    for (block, kind) in [(10, 1), (12, 2)] {
        put_be(&mut raw, block * BS, 0xC03B_3998);
        put_be(&mut raw, block * BS + 4, kind);
        put_be(&mut raw, block * BS + 8, 1);
    }
    put_be(&mut raw, 10 * BS + 12, 1);
    raw[10 * BS + 16..10 * BS + 18].copy_from_slice(&9u16.to_be_bytes());
    raw.copy_within(BS..2 * BS, 11 * BS);
    put16(&mut raw, 11 * BS + 12, 100);
    put16(&mut raw, 11 * BS + 14, 40);
    put_be(&mut raw, 9 * BS + 28, 1);
    raw
}

#[test]
fn mounting_and_unmounting_changes_the_state_alone() {
    let dev = mounted().unmount().expect("unmount");
    let was = image();
    for (i, (a, b)) in dev.contents().iter().zip(&was).enumerate() {
        assert!(a == b || i == 1024 + 58 || i == 1024 + 59, "byte {i}");
    }
}

#[test]
fn replayed_counts_outlive_the_mount() {
    let fs = Ext4FsRw::open_rw(MemoryDevice::from_bytes(logged_counts())).expect("mount");
    let d = *fs.gdt.get(0).unwrap();
    assert_eq!((d.free_blocks_count, d.free_inodes_count), (100, 40));
    let dev = fs.unmount().expect("unmount");
    let gdt = GroupDescTable::load(&dev, &parse(&dev).unwrap()).unwrap();
    let d = gdt.get(0).unwrap();
    assert_eq!((d.free_blocks_count, d.free_inodes_count), (100, 40));

    let mut fs = Ext4FsRw::open_rw(MemoryDevice::from_bytes(logged_counts())).expect("mount");
    assert!(create_in_root(&mut fs, "f", false));
    let dev = fs.unmount().expect("unmount");
    let gdt = GroupDescTable::load(&dev, &parse(&dev).unwrap()).unwrap();
    assert_eq!(gdt.get(0).unwrap().free_inodes_count, 39);
}

#[test]
fn recovering_twice_is_recovering_once() {
    let mut dev = MemoryDevice::from_bytes(logged_counts());
    let sb = parse(&dev).unwrap();
    let gdt = GroupDescTable::load(&dev, &sb).unwrap();
    let first = check_and_recover(&mut dev, &sb, &gdt).expect("first");
    assert_eq!(first.sb.start_block, 1);
    let once = dev.contents().to_vec();
    assert_ne!(once, logged_counts());
    let second = check_and_recover(&mut dev, &sb, &gdt).expect("second");
    assert_eq!(second.sb.start_block, 0);
    assert_eq!(dev.contents(), &once[..]);
}
