//! Writing to an open file.
use vstd::prelude::*;
use super::file_info;
use super::file_info::FileInfo;
use super::Status;
use crate::block_device;
use crate::block_device::BlockDevice;
use crate::clock;
use crate::file_write;
use crate::fs_context;
use crate::fs_context::{Ext4Fs, FileHandle, VolState};
use crate::fs_state;
use crate::fs_state::FsState;
use crate::group_desc::GroupDescTable;
use crate::inode;
use crate::inode::{Inode, InodeView};
use crate::journal::writer::Transaction;
use crate::superblock::Superblock;

verus! {

/// Writing `data` to file `num` from byte `at` on: the data, the size that the
/// file has then, and the counts of what is free.
pub open spec fn put(
    st: FsState,
    sb: Superblock,
    num: u32,
    i: InodeView,
    at: int,
    data: Seq<u8>,
    seconds: Option<u64>,
) -> (FsState, Result<(), Status>) {
    let (s1, r1) = file_write::file_written(st, sb, num, i, at, data);
    if r1 is Err {
        (s1, Err(Status::DiskFull))
    } else {
        let (s2, r2) = super::touched(
            s1,
            sb,
            num,
            super::resize(block_device::max(at + data.len(), i.size as int) as u64, seconds),
        );
        match r2 {
            Err(e) => (s2, Err(e)),
            Ok(()) => super::recounted(s2, sb, seconds),
        }
    }
}

/// Writing to file `num`. Gives how many bytes were written, and the inode
/// afterwards.
pub open spec fn written(
    v: VolState,
    sb: Superblock,
    read_only: bool,
    is_file: bool,
    num: u32,
    data: Seq<u8>,
    offset: u64,
    to_eof: bool,
    constrained: bool,
    seconds: Option<u64>,
) -> (VolState, Result<(u32, InodeView), Status>) {
    if read_only {
        (v, Err(Status::MediaWriteProtected))
    } else if !is_file {
        (v, Err(Status::InvalidDeviceRequest))
    } else {
        match inode::inode_at(v.disk, sb, v.gdt, num) {
            Err(_) => (v, Err(Status::InternalError)),
            Ok(i) => {
                let at = if to_eof {
                    i.size
                } else {
                    offset
                };
                if data.len() == 0 || (constrained && at + data.len() > i.size) {
                    (v, Ok((0, i)))
                } else if at + data.len() > u64::MAX {
                    (v, Err(Status::DiskFull))
                } else {
                    let (s, r) = put(
                        fs_context::running(v, fs_context::begun(v)),
                        sb,
                        num,
                        i,
                        at as int,
                        data,
                        seconds,
                    );
                    let v1 = fs_context::after(v, s);
                    match r {
                        Err(e) => (v1, Err(e)),
                        Ok(()) => {
                            let (v2, r2) = super::finished(v1, sb, s.txn, num);
                            match r2 {
                                Err(e) => (v2, Err(e)),
                                Ok(i2) => (
                                    v2,
                                    Ok(((data.len() % 0x1_0000_0000) as u32, i2)),
                                ),
                            }
                        },
                    }
                }
            },
        }
    }
}

fn put_at<D: BlockDevice>(
    dev: &mut D,
    sb: &Superblock,
    gdt: &mut GroupDescTable,
    txn: &mut Transaction,
    num: u32,
    inode: &Inode,
    at: u64,
    data: &[u8],
    seconds: Option<u64>,
) -> (r: Result<(), Status>)
    requires
        sb.wf(),
        at + data@.len() <= u64::MAX,
    ensures
        block_device::same_shape(*old(dev), *final(dev)),
        old(dev).reliable() ==> (fs_state::now(*final(dev), *final(txn), *final(gdt)), r) == put(
            fs_state::now(*old(dev), *old(txn), *old(gdt)),
            *sb,
            num,
            inode@,
            at as int,
            data@,
            seconds,
        ),
{
    match file_write::write_data(dev, sb, gdt, txn, num, inode, at, data) {
        Ok(()) => {},
        Err(_) => {
            return Err(Status::DiskFull);
        },
    }
    let end: u64 = at + data.len() as u64;
    let size: u64 = if end > inode.size {
        end
    } else {
        inode.size
    };
    match super::touch(dev, sb, gdt, txn, num, super::resized_at(size, seconds)) {
        Ok(()) => {},
        Err(e) => {
            return Err(e);
        },
    }
    super::recount(dev, sb, gdt, txn, seconds)
}

/// Whether a write request that gives `x` answers `r`, and tells `info`.
pub open spec fn answers(
    x: Result<(u32, InodeView), Status>,
    num: u32,
    r: Result<u32, Status>,
    info: FileInfo,
) -> bool {
    match x {
        Err(e) => r == Err::<u32, Status>(e),
        Ok((n, i)) => r == Ok::<u32, Status>(n) && info == file_info::info_of(i, num),
    }
}

impl<D: BlockDevice> Ext4Fs<D> {
    /// Write to an open file at the time `seconds`.
    pub fn write_file_data_at(
        &mut self,
        context: &FileHandle,
        buffer: &[u8],
        offset: u64,
        write_to_eof: bool,
        constrained_io: bool,
        seconds: Option<u64>,
        file_info: &mut FileInfo,
    ) -> (r: Result<u32, Status>)
        requires
            old(self).wf(),
        ensures
            old(self).same_volume(final(self)),
            old(self).dev.reliable() ==> ({
                let (v, x) = written(
                    old(self).state(),
                    old(self).sb,
                    old(self).read_only,
                    context is File,
                    context.num(),
                    buffer@,
                    offset,
                    write_to_eof,
                    constrained_io,
                    seconds,
                );
                final(self).state() == v && answers(x, context.num(), r, *final(file_info))
            }),
            old(self).read_only ==> r == Err::<u32, Status>(Status::MediaWriteProtected)
                && *final(self) == *old(self),
            r is Ok ==> r->Ok_0 == 0 || r->Ok_0 == buffer@.len() % 0x1_0000_0000,
            r is Ok && r->Ok_0 > 0 ==> final(self).dev.synced(),
            r is Err ==> *final(file_info) == *old(file_info),
    {
        if self.read_only {
            return Err(Status::MediaWriteProtected);
        }
        let num: u32 = match context {
            FileHandle::File { inode_num, inode: _ } => *inode_num,
            _ => {
                return Err(Status::InvalidDeviceRequest);
            },
        };
        let inode = match self.inode(num) {
            Ok(i) => i,
            Err(_) => {
                return Err(Status::InternalError);
            },
        };
        if buffer.len() == 0 {
            *file_info = file_info::file_info_from_inode(&inode, num);
            return Ok(0);
        }
        let len: u64 = buffer.len() as u64;
        let at: u64 = if write_to_eof {
            inode.size
        } else {
            offset
        };
        if constrained_io && (at > inode.size || len > inode.size - at) {
            *file_info = file_info::file_info_from_inode(&inode, num);
            return Ok(0);
        }
        if len > u64::MAX - at {
            return Err(Status::DiskFull);
        }
        let mut txn = self.journal.begin_transaction();
        match put_at(
            &mut self.dev,
            &self.sb,
            &mut self.gdt,
            &mut txn,
            num,
            &inode,
            at,
            buffer,
            seconds,
        ) {
            Ok(()) => {},
            Err(e) => {
                return Err(e);
            },
        }
        match self.finish(txn, num) {
            Ok(i) => {
                *file_info = file_info::file_info_from_inode(&i, num);
                Ok((len % 0x1_0000_0000) as u32)
            },
            Err(e) => Err(e),
        }
    }

    /// Write to an open file: at `offset`, or at its end. Constrained, a write
    /// that would reach past the end writes nothing. Refused on a read-only mount.
    pub fn write_file_data_cb(
        &mut self,
        context: &FileHandle,
        buffer: &[u8],
        offset: u64,
        write_to_eof: bool,
        constrained_io: bool,
        file_info: &mut FileInfo,
    ) -> (r: Result<u32, Status>)
        requires
            old(self).wf(),
        ensures
            old(self).same_volume(final(self)),
            old(self).dev.reliable() ==> exists|seconds: Option<u64>| ({
                let (v, x) = #[trigger] written(
                    old(self).state(),
                    old(self).sb,
                    old(self).read_only,
                    context is File,
                    context.num(),
                    buffer@,
                    offset,
                    write_to_eof,
                    constrained_io,
                    seconds,
                );
                final(self).state() == v && answers(x, context.num(), r, *final(file_info))
            }),
            old(self).read_only ==> r == Err::<u32, Status>(Status::MediaWriteProtected)
                && *final(self) == *old(self),
            r is Ok ==> r->Ok_0 == 0 || r->Ok_0 == buffer@.len() % 0x1_0000_0000,
            r is Ok && r->Ok_0 > 0 ==> final(self).dev.synced(),
            r is Err ==> *final(file_info) == *old(file_info),
    {
        let seconds: Option<u64> = clock::unix_seconds();
        self.write_file_data_at(
            context,
            buffer,
            offset,
            write_to_eof,
            constrained_io,
            seconds,
            file_info,
        )
    }
}

} // verus!
