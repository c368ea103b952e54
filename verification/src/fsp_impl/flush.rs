//! Pushing what was written to the medium.
use vstd::prelude::*;
use super::file_info;
use super::file_info::FileInfo;
use super::Status;
use crate::block_device::BlockDevice;
use crate::fs_context::{Ext4Fs, FileHandle};

verus! {

impl<D: BlockDevice> Ext4Fs<D> {
    /// Push everything written so far to the medium. Tells of the open file, if
    /// there is one.
    pub fn flush_cb(
        &mut self,
        context: Option<&FileHandle>,
        file_info: &mut FileInfo,
    ) -> (r: Result<
        (),
        Status,
    >)
        ensures
            old(self).same_volume(final(self)),
            final(self).state() == old(self).state(),
            r is Ok ==> final(self).dev.synced(),
            old(self).dev.reliable() ==> r is Ok,
            r is Err ==> r->Err_0 == Status::InternalError,
            *final(file_info) == (match context {
                Some(h) if r is Ok => file_info::info_of(h.snapshot(), h.num()),
                _ => *old(file_info),
            }),
    {
        match self.journal.flush_pending(&self.dev) {
            Ok(()) => {},
            Err(_) => {
                return Err(Status::InternalError);
            },
        }
        match self.dev.flush() {
            Ok(()) => {},
            Err(_) => {
                return Err(Status::InternalError);
            },
        }
        match context {
            Some(h) => {
                let (num, inode) = h.parts();
                *file_info = file_info::file_info_from_inode(&inode, num);
            },
            None => {},
        }
        Ok(())
    }
}

} // verus!
