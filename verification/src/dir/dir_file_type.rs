//! The file type that a directory entry carries.
use vstd::prelude::*;

verus! {

pub const UNKNOWN: u8 = 0;

pub const REG_FILE: u8 = 1;

pub const DIR: u8 = 2;

pub const CHRDEV: u8 = 3;

pub const BLKDEV: u8 = 4;

pub const FIFO: u8 = 5;

pub const SOCK: u8 = 6;

pub const SYMLINK: u8 = 7;

} // verus!
