//! What the command line asks for.
use vstd::prelude::*;
use vstd::string::*;
use crate::block_device::BlockDevice;
use crate::bytes;
use crate::fs_context;
use crate::fs_context::{Ext4Fs, Ext4FsError, OpenMode};

verus! {

/// A parsed command line.
#[derive(Debug)]
pub struct Cli {
    pub command: Command,
}

/// What is to be done.
#[derive(Debug)]
pub enum Command {
    /// Mount a volume; read-only unless `rw` is given.
    Mount { source: String, drive: String, rw: bool, force: bool, verbose: bool },
    /// Unmount a volume.
    Unmount { drive: String },
}

/// How a volume is opened: `force` does not matter to a mount for writing.
pub open spec fn mode_of(rw: bool, force: bool) -> OpenMode {
    if rw {
        OpenMode::ReadWrite
    } else if force {
        OpenMode::ReadOnlyForce
    } else {
        OpenMode::ReadOnly
    }
}

/// Open the volume on a device as the command line asks.
pub fn open_fs<D: BlockDevice>(dev: D, rw: bool, force: bool) -> (r: Result<
    Ext4Fs<D>,
    Ext4FsError,
>)
    ensures
        r is Ok || dev.reliable() ==> fs_context::opens(dev.bytes(), mode_of(rw, force), r),
        r is Ok ==> r->Ok_0.wf() && r->Ok_0.dev.reliable() == dev.reliable(),
        r is Ok ==> r->Ok_0.read_only == !rw,
        r is Ok && !rw ==> r->Ok_0.dev == dev,
{
    if rw {
        Ext4Fs::open_rw(dev)
    } else if force {
        Ext4Fs::open_ro_force(dev)
    } else {
        Ext4Fs::open(dev)
    }
}

/// Whether a source is a raw disk: its path starts with `\\.\` or `\\?\`.
pub open spec fn raw_disk(source: Seq<char>) -> bool {
    source.len() >= 4 && source[0] == '\\' && source[1] == '\\' && (source[2] == '.' || source[2]
        == '?') && source[3] == '\\'
}

pub fn is_raw_disk(source: &str) -> (r: bool)
    ensures
        r == raw_disk(source@),
{
    source.unicode_len() >= 4 && source.get_char(0) == '\\' && source.get_char(1) == '\\' && (
    source.get_char(2) == '.' || source.get_char(2) == '?') && source.get_char(3) == '\\'
}

/// The serial number of a volume, from its UUID's first bytes.
pub fn volume_serial(uuid: &[u8; 16]) -> (r: u32)
    ensures
        r == bytes::le32(uuid@, 0),
{
    bytes::get_u32_le(uuid.as_slice(), 0)
}

/// The mount point that a drive names. Drives and directories are taken as they
/// are given.
pub fn normalize_drive_letter(drive: &str) -> (r: Result<String, String>)
    ensures
        r is Ok && r->Ok_0@ == drive@,
{
    Ok(drive.to_owned())
}

} // verus!
