//! What is told of a file.
use vstd::prelude::*;
use super::Status;
use crate::block_device::BlockDevice;
use crate::bytes;
use crate::fs_context::{Ext4Fs, FileHandle};
use crate::inode::{Inode, InodeView};

verus! {

pub const FILE_ATTRIBUTE_READONLY: u32 = 0x1;

pub const FILE_ATTRIBUTE_DIRECTORY: u32 = 0x10;

pub const FILE_ATTRIBUTE_REPARSE_POINT: u32 = 0x400;

/// The tag of a reparse point that is a symbolic link.
pub const IO_REPARSE_TAG_SYMLINK: u32 = 0xA000_000C;

/// What is told of a file.
#[derive(Debug, Clone, Copy, PartialEq, Eq, Structural)]
pub struct FileInfo {
    pub file_attributes: u32,
    pub reparse_tag: u32,
    pub allocation_size: u64,
    pub file_size: u64,
    pub creation_time: u64,
    pub last_access_time: u64,
    pub last_write_time: u64,
    pub change_time: u64,
    pub index_number: u64,
    pub hard_links: u32,
    pub ea_size: u32,
}

impl Default for FileInfo {
    fn default() -> (r: FileInfo)
        ensures
            r == (FileInfo {
                file_attributes: 0,
                reparse_tag: 0,
                allocation_size: 0,
                file_size: 0,
                creation_time: 0,
                last_access_time: 0,
                last_write_time: 0,
                change_time: 0,
                index_number: 0,
                hard_links: 0,
                ea_size: 0,
            }),
    {
        FileInfo {
            file_attributes: 0,
            reparse_tag: 0,
            allocation_size: 0,
            file_size: 0,
            creation_time: 0,
            last_access_time: 0,
            last_write_time: 0,
            change_time: 0,
            index_number: 0,
            hard_links: 0,
            ea_size: 0,
        }
    }
}

/// The attributes of a file: every one is read-only.
pub open spec fn attributes(i: InodeView) -> u32 {
    if i.is_dir() {
        0x11
    } else if i.is_symlink() {
        0x401
    } else {
        0x1
    }
}

/// A Unix time as a count of 100 ns since 1601.
pub open spec fn filetime(seconds: u32) -> u64 {
    ((seconds + 11_644_473_600) * 10_000_000) as u64
}

/// A file's size, up to a multiple of 512.
pub open spec fn allocation(size: u64) -> u64 {
    bytes::sat64((size + 511) / 512 * 512)
}

/// What is told of inode `num`.
pub open spec fn info_of(i: InodeView, num: u32) -> FileInfo {
    FileInfo {
        file_attributes: attributes(i),
        reparse_tag: if i.is_symlink() {
            IO_REPARSE_TAG_SYMLINK
        } else {
            0
        },
        allocation_size: allocation(i.size),
        file_size: i.size,
        creation_time: filetime(i.ctime),
        last_access_time: filetime(i.atime),
        last_write_time: filetime(i.mtime),
        change_time: filetime(i.mtime),
        index_number: num as u64,
        hard_links: i.links_count as u32,
        ea_size: 0,
    }
}

/// What is told of a file is what its inode says: its size and links, the space that its size
/// takes up in whole sectors, its times, and whether it is a directory or a link, which no
/// other file is said to be.
pub proof fn law_info(i: InodeView, num: u32)
    ensures
        ({
            let x = info_of(i, num);
            let kind = i.mode / 0x1000;
            &&& x.file_size == i.size
            &&& x.hard_links == i.links_count
            &&& x.index_number == num
            &&& x.ea_size == 0
            &&& x.file_attributes % 2 == 1
            &&& x.file_attributes / 0x10 % 2 == 1 <==> kind == 4
            &&& x.file_attributes / 0x400 % 2 == 1 <==> kind == 10
            &&& x.file_attributes <= 0x411
            &&& x.reparse_tag == (if kind == 10 {
                0xA000_000Cu32
            } else {
                0
            })
            &&& i.size <= u64::MAX - 511 ==> {
                &&& x.allocation_size % 512 == 0
                &&& i.size <= x.allocation_size < i.size + 512
            }
            &&& x.creation_time == (i.ctime + 11_644_473_600) * 10_000_000
            &&& x.last_access_time == (i.atime + 11_644_473_600) * 10_000_000
            &&& x.last_write_time == (i.mtime + 11_644_473_600) * 10_000_000
            &&& x.change_time == (i.mtime + 11_644_473_600) * 10_000_000
        }),
{
    let mode = i.mode;
    assert(mode & 0xF000 == 0x8000 <==> mode / 0x1000 == 8) by (bit_vector);
    assert(mode & 0xF000 == 0x4000 <==> mode / 0x1000 == 4) by (bit_vector);
    assert(mode & 0xF000 == 0xA000 <==> mode / 0x1000 == 10) by (bit_vector);
}

/// Of two times the later one is told as later, and seconds that follow one another as ten
/// million units apart.
pub proof fn law_times_in_order(a: u32, b: u32)
    ensures
        a < b <==> filetime(a) < filetime(b),
        b == a + 1 ==> filetime(b) == filetime(a) + 10_000_000,
{
}

fn to_filetime(seconds: u32) -> (r: u64)
    ensures
        r == filetime(seconds),
{
    (seconds as u64 + 11_644_473_600) * 10_000_000
}

/// The attributes of a file: read-only, and what else its type asks for.
pub fn inode_to_file_attributes(inode: &Inode) -> (r: u32)
    ensures
        r == attributes(inode@),
{
    let mut attrs: u32 = FILE_ATTRIBUTE_READONLY;
    if inode.is_dir() {
        attrs = attrs + FILE_ATTRIBUTE_DIRECTORY;
    }
    if inode.is_symlink() {
        attrs = attrs + FILE_ATTRIBUTE_REPARSE_POINT;
    }
    attrs
}

/// What is told of the file with the given inode.
pub fn file_info_from_inode(inode: &Inode, inode_num: u32) -> (r: FileInfo)
    ensures
        r == info_of(inode@, inode_num),
{
    let size: u64 = inode.size;
    FileInfo {
        file_attributes: inode_to_file_attributes(inode),
        reparse_tag: if inode.is_symlink() {
            IO_REPARSE_TAG_SYMLINK
        } else {
            0
        },
        allocation_size: if size > u64::MAX - 511 {
            u64::MAX
        } else {
            (size + 511) / 512 * 512
        },
        file_size: size,
        creation_time: to_filetime(inode.ctime),
        last_access_time: to_filetime(inode.atime),
        last_write_time: to_filetime(inode.mtime),
        change_time: to_filetime(inode.mtime),
        index_number: inode_num as u64,
        hard_links: inode.links_count as u32,
        ea_size: 0,
    }
}

impl<D: BlockDevice> Ext4Fs<D> {
    /// Tell of an open file, as it was when it was opened.
    pub fn file_info_for_handle(&self, context: &FileHandle, out: &mut FileInfo) -> (r: Result<
        (),
        Status,
    >)
        ensures
            r is Ok,
            *final(out) == info_of(context.snapshot(), context.num()),
    {
        let (num, inode) = context.parts();
        *out = file_info_from_inode(&inode, num);
        Ok(())
    }
}

} // verus!
