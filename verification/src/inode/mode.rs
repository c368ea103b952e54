//! The file type bits of an inode's mode.
use vstd::prelude::*;

verus! {

pub const S_IFMT: u16 = 0xF000;

pub const S_IFREG: u16 = 0x8000;

pub const S_IFDIR: u16 = 0x4000;

pub const S_IFLNK: u16 = 0xA000;

pub const S_IFBLK: u16 = 0x6000;

pub const S_IFCHR: u16 = 0x2000;

pub const S_IFIFO: u16 = 0x1000;

pub const S_IFSOCK: u16 = 0xC000;

} // verus!
