//! Setting the size of a file.
use vstd::prelude::*;
use super::file_info;
use super::file_info::FileInfo;
use super::Status;
use crate::block_device;
use crate::block_device::BlockDevice;
use crate::bytes;
use crate::clock;
use crate::extent_write;
use crate::fs_context;
use crate::fs_context::{Ext4Fs, FileHandle, VolState};
use crate::fs_state;
use crate::fs_state::FsState;
use crate::group_desc::GroupDescTable;
use crate::inode;
use crate::inode::InodeView;
use crate::journal::writer::Transaction;
use crate::superblock::Superblock;

verus! {

/// Giving file `num`, which has `old_size` bytes, a new size: what lies behind
/// the new end is freed, by whole blocks. A larger size allocates nothing.
pub open spec fn cut(
    st: FsState,
    sb: Superblock,
    num: u32,
    old_size: u64,
    new_size: u64,
    seconds: Option<u64>,
) -> (FsState, Result<(), Status>) {
    let (s1, r1) = if new_size < old_size {
        extent_write::truncated(
            st,
            sb,
            num,
            (bytes::ceil_div(new_size as int, sb.block_size as int) % 0x1_0000_0000) as u32,
        )
    } else {
        (st, Ok(()))
    };
    if r1 is Err {
        (s1, Err(Status::InternalError))
    } else {
        let (s2, r2) = super::touched(s1, sb, num, super::resize(new_size, seconds));
        match r2 {
            Err(e) => (s2, Err(e)),
            Ok(()) => super::recounted(s2, sb, seconds),
        }
    }
}

/// Setting the size of file `num`.
pub open spec fn resized(
    v: VolState,
    sb: Superblock,
    read_only: bool,
    is_file: bool,
    num: u32,
    new_size: u64,
    seconds: Option<u64>,
) -> (VolState, Result<InodeView, Status>) {
    if read_only {
        (v, Err(Status::MediaWriteProtected))
    } else if !is_file {
        (v, Err(Status::InvalidDeviceRequest))
    } else {
        match inode::inode_at(v.disk, sb, v.gdt, num) {
            Err(_) => (v, Err(Status::InternalError)),
            Ok(i) => {
                let (s, r) = cut(
                    fs_context::running(v, fs_context::begun(v)),
                    sb,
                    num,
                    i.size,
                    new_size,
                    seconds,
                );
                let v1 = fs_context::after(v, s);
                match r {
                    Err(e) => (v1, Err(e)),
                    Ok(()) => super::finished(v1, sb, s.txn, num),
                }
            },
        }
    }
}

fn cut_at<D: BlockDevice>(
    dev: &mut D,
    sb: &Superblock,
    gdt: &mut GroupDescTable,
    txn: &mut Transaction,
    num: u32,
    old_size: u64,
    new_size: u64,
    seconds: Option<u64>,
) -> (r: Result<(), Status>)
    requires
        sb.wf(),
    ensures
        block_device::same_shape(*old(dev), *final(dev)),
        r is Ok || old(dev).reliable() ==> (
            fs_state::now(*final(dev), *final(txn), *final(gdt)),
            r,
        ) == cut(
            fs_state::now(*old(dev), *old(txn), *old(gdt)),
            *sb,
            num,
            old_size,
            new_size,
            seconds,
        ),
{
    if new_size < old_size {
        let keep: u64 = bytes::div_ceil(new_size, sb.block_size as u64);
        match extent_write::truncate(dev, sb, gdt, txn, num, (keep % 0x1_0000_0000) as u32) {
            Ok(()) => {},
            Err(_) => {
                return Err(Status::InternalError);
            },
        }
    }
    match super::touch(dev, sb, gdt, txn, num, super::resized_at(new_size, seconds)) {
        Ok(()) => {},
        Err(e) => {
            return Err(e);
        },
    }
    super::recount(dev, sb, gdt, txn, seconds)
}

impl<D: BlockDevice> Ext4Fs<D> {
    /// Set the size of an open file at the time `seconds`.
    pub fn set_file_size_at(
        &mut self,
        context: &FileHandle,
        new_size: u64,
        seconds: Option<u64>,
        file_info: &mut FileInfo,
    ) -> (r: Result<(), Status>)
        requires
            old(self).wf(),
        ensures
            old(self).same_volume(final(self)),
            r is Ok || old(self).dev.reliable() ==> ({
                let (v, x) = resized(
                    old(self).state(),
                    old(self).sb,
                    old(self).read_only,
                    context is File,
                    context.num(),
                    new_size,
                    seconds,
                );
                &&& final(self).state() == v
                &&& match x {
                    Err(e) => r == Err::<(), Status>(e),
                    Ok(i) => r is Ok && *final(file_info) == file_info::info_of(
                        i,
                        context.num(),
                    ),
                }
            }),
            old(self).read_only ==> r == Err::<(), Status>(Status::MediaWriteProtected)
                && *final(self) == *old(self),
            r is Ok ==> final(self).dev.synced(),
            r is Err ==> *final(file_info) == *old(file_info),
    {
        if self.read_only {
            return Err(Status::MediaWriteProtected);
        }
        let num: u32 = match context {
            FileHandle::File { inode_num, inode: _ } => *inode_num,
            _ => {
                return Err(Status::InvalidDeviceRequest);
            },
        };
        let inode = match self.inode(num) {
            Ok(i) => i,
            Err(_) => {
                return Err(Status::InternalError);
            },
        };
        let mut txn = self.journal.begin_transaction();
        match cut_at(
            &mut self.dev,
            &self.sb,
            &mut self.gdt,
            &mut txn,
            num,
            inode.size,
            new_size,
            seconds,
        ) {
            Ok(()) => {},
            Err(e) => {
                return Err(e);
            },
        }
        match self.finish(txn, num) {
            Ok(i) => {
                *file_info = file_info::file_info_from_inode(&i, num);
                Ok(())
            },
            Err(e) => Err(e),
        }
    }

    /// Set the size of an open file. Refused on a read-only mount.
    pub fn set_file_size_cb(
        &mut self,
        context: &FileHandle,
        new_size: u64,
        file_info: &mut FileInfo,
    ) -> (r: Result<(), Status>)
        requires
            old(self).wf(),
        ensures
            old(self).same_volume(final(self)),
            r is Ok || old(self).dev.reliable() ==> exists|seconds: Option<u64>| ({
                let (v, x) = #[trigger] resized(
                    old(self).state(),
                    old(self).sb,
                    old(self).read_only,
                    context is File,
                    context.num(),
                    new_size,
                    seconds,
                );
                &&& final(self).state() == v
                &&& match x {
                    Err(e) => r == Err::<(), Status>(e),
                    Ok(i) => r is Ok && *final(file_info) == file_info::info_of(
                        i,
                        context.num(),
                    ),
                }
            }),
            old(self).read_only ==> r == Err::<(), Status>(Status::MediaWriteProtected)
                && *final(self) == *old(self),
            r is Ok ==> final(self).dev.synced(),
            r is Err ==> *final(file_info) == *old(file_info),
    {
        let seconds: Option<u64> = clock::unix_seconds();
        self.set_file_size_at(context, new_size, seconds, file_info)
    }
}

} // verus!
