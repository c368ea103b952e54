//! Setting the times of a file.
use vstd::prelude::*;
use super::file_info;
use super::file_info::FileInfo;
use super::Status;
use crate::block_device::BlockDevice;
use crate::fs_context;
use crate::fs_context::{Ext4Fs, FileHandle, VolState};
use crate::inode::InodeView;
use crate::inode_write;
use crate::inode_write::InodeUpdate;
use crate::superblock::Superblock;

verus! {

/// A count of 100 ns since 1601 as a Unix time, of which 32 bits are kept. Times
/// before 1970 count as its start.
pub open spec fn unix_time(ft: u64) -> u32 {
    let s = ft / 10_000_000 - 11_644_473_600;
    if s <= 0 {
        0
    } else {
        (s % 0x1_0000_0000) as u32
    }
}

/// A time that goes to Windows and back is unchanged.
pub proof fn law_filetime(seconds: u32)
    ensures
        unix_time(file_info::filetime(seconds)) == seconds,
        file_info::filetime(seconds) != 0,
{
}

/// A Windows file time as a Unix time.
pub fn from_filetime(ft: u64) -> (r: u32)
    ensures
        r == unix_time(ft),
{
    let s: u64 = (ft / 10_000_000).saturating_sub(11_644_473_600);
    (s % 0x1_0000_0000) as u32
}

/// The update that sets a file's times; those given as 0 are kept.
pub open spec fn retime(atime: u64, mtime: u64, ctime: u64) -> InodeUpdate {
    InodeUpdate {
        atime: given(atime),
        mtime: given(mtime),
        ctime: given(ctime),
        ..inode_write::no_update()
    }
}

pub open spec fn given(ft: u64) -> Option<u32> {
    if ft == 0 {
        None
    } else {
        Some(unix_time(ft))
    }
}

/// Setting the times of inode `num`.
pub open spec fn retimed(
    v: VolState,
    sb: Superblock,
    read_only: bool,
    num: u32,
    u: InodeUpdate,
) -> (VolState, Result<InodeView, Status>) {
    if read_only {
        (v, Err(Status::MediaWriteProtected))
    } else {
        let (s, r) = super::touched(fs_context::running(v, fs_context::begun(v)), sb, num, u);
        match r {
            Err(e) => (v, Err(e)),
            Ok(()) => super::finished(v, sb, s.txn, num),
        }
    }
}

impl<D: BlockDevice> Ext4Fs<D> {
    /// Set the times of an open file; those given as 0 are kept. Refused on a
    /// read-only mount.
    pub fn set_basic_info_cb(
        &mut self,
        context: &FileHandle,
        last_access_time: u64,
        last_write_time: u64,
        last_change_time: u64,
        file_info: &mut FileInfo,
    ) -> (r: Result<(), Status>)
        requires
            old(self).wf(),
        ensures
            old(self).same_volume(final(self)),
            r is Ok || old(self).dev.reliable() ==> ({
                let (v, x) = retimed(
                    old(self).state(),
                    old(self).sb,
                    old(self).read_only,
                    context.num(),
                    retime(last_access_time, last_write_time, last_change_time),
                );
                &&& final(self).state() == v
                &&& match x {
                    Err(e) => r == Err::<(), Status>(e),
                    Ok(i) => r is Ok && *final(file_info) == file_info::info_of(
                        i,
                        context.num(),
                    ),
                }
            }),
            old(self).read_only ==> r == Err::<(), Status>(Status::MediaWriteProtected)
                && *final(self) == *old(self),
            r is Ok ==> final(self).dev.synced(),
            r is Err ==> *final(file_info) == *old(file_info),
    {
        if self.read_only {
            return Err(Status::MediaWriteProtected);
        }
        let (num, _) = context.parts();
        let mut update = InodeUpdate::default();
        if last_access_time != 0 {
            update = update.with_atime(from_filetime(last_access_time));
        }
        if last_write_time != 0 {
            update = update.with_mtime(from_filetime(last_write_time));
        }
        if last_change_time != 0 {
            update = update.with_ctime(from_filetime(last_change_time));
        }
        let mut txn = self.journal.begin_transaction();
        match super::touch(&self.dev, &self.sb, &self.gdt, &mut txn, num, update) {
            Ok(()) => {},
            Err(e) => {
                return Err(e);
            },
        }
        match self.finish(txn, num) {
            Ok(i) => {
                *file_info = file_info::file_info_from_inode(&i, num);
                Ok(())
            },
            Err(e) => Err(e),
        }
    }
}

} // verus!
