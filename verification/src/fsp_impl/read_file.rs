//! Reading an open file.
use vstd::prelude::*;
use super::Status;
use crate::block_device::BlockDevice;
use crate::extent;
use crate::file;
use crate::file::{FileReader, SeekTo};
use crate::fs_context::{Ext4Fs, FileHandle, VolState};
use crate::inode;
use crate::superblock::Superblock;

verus! {

/// The bytes that a read of up to `len` bytes at `offset` of file `num` gives:
/// what is left of the file there, holes as zeros.
pub open spec fn read_out(v: VolState, sb: Superblock, num: u32, offset: u64, len: int) -> Result<
    Seq<u8>,
    Status,
> {
    match inode::inode_at(v.disk, sb, v.gdt, num) {
        Err(_) => Err(Status::InternalError),
        Ok(i) => if !i.is_file() && !i.is_symlink() {
            Err(Status::InternalError)
        } else {
            match extent::file_leaves(v.disk, sb, i.uses_extents(), i.block_data) {
                Err(_) => Err(Status::InternalError),
                Ok(l) => {
                    let leaves = extent::in_order(l);
                    let n = if offset >= i.size {
                        0
                    } else if len < i.size - offset {
                        len
                    } else {
                        i.size - offset
                    };
                    if offset > i64::MAX || file::read_fault(
                        v.disk,
                        sb.block_size,
                        leaves,
                        offset as int,
                        offset + n,
                    ) is Some {
                        Err(Status::InternalError)
                    } else {
                        Ok(
                            Seq::new(
                                n as nat,
                                |k: int| file::file_byte(v.disk, sb.block_size, leaves, offset + k),
                            ),
                        )
                    }
                },
            }
        },
    }
}

/// A read gives as many bytes as are asked for, or, near the end of the file, as are left, and
/// behind it none. Each is the byte of the file at its place, so that a byte does not depend
/// on where the read starts, or how long it is.
pub proof fn law_read(
    v: VolState,
    sb: Superblock,
    num: u32,
    offset: u64,
    len: int,
    other: u64,
    more: int,
)
    requires
        0 <= len,
        0 <= more,
        read_out(v, sb, num, offset, len) is Ok,
        read_out(v, sb, num, other, more) is Ok,
    ensures
        ({
            let size = inode::inode_at(v.disk, sb, v.gdt, num)->Ok_0.size;
            let a = read_out(v, sb, num, offset, len)->Ok_0;
            let b = read_out(v, sb, num, other, more)->Ok_0;
            &&& offset + len <= size ==> a.len() == len
            &&& offset <= size <= offset + len ==> a.len() == size - offset
            &&& size <= offset ==> a.len() == 0
            &&& forall|k: int|
                0 <= k < a.len() && 0 <= offset + k - other < b.len() ==> #[trigger] a[k]
                    == b[offset + k - other]
        }),
{
}

impl<D: BlockDevice> Ext4Fs<D> {
    /// Read from an open file at `offset`, as the file stands on the device.
    /// Returns how many bytes were read.
    pub fn read_file_data(
        &self,
        context: &FileHandle,
        buffer: &mut [u8],
        offset: u64,
    ) -> (r: Result<
        u32,
        Status,
    >)
        requires
            self.wf(),
        ensures
            final(buffer)@.len() == old(buffer)@.len(),
            !(context is File) ==> r == Err::<u32, Status>(Status::InvalidDeviceRequest)
                && final(buffer)@ == old(buffer)@,
            context is File && (r is Ok || self.dev.reliable()) ==> match read_out(
                self.state(),
                self.sb,
                context.num(),
                offset,
                old(buffer)@.len() as int,
            ) {
                Err(e) => r == Err::<u32, Status>(e),
                Ok(s) => {
                    &&& r == Ok::<u32, Status>((s.len() % 0x1_0000_0000) as u32)
                    &&& s.len() <= old(buffer)@.len()
                    &&& final(buffer)@ == s + old(buffer)@.skip(s.len() as int)
                },
            },
    {
        let num: u32 = match context {
            FileHandle::File { inode_num, inode: _ } => *inode_num,
            _ => {
                return Err(Status::InvalidDeviceRequest);
            },
        };
        let inode = match self.inode(num) {
            Ok(i) => i,
            Err(_) => {
                return Err(Status::InternalError);
            },
        };
        let mut reader = match FileReader::new(&self.dev, &self.sb, &inode) {
            Ok(r) => r,
            Err(_) => {
                return Err(Status::InternalError);
            },
        };
        match reader.seek(SeekTo::Start(offset)) {
            Ok(_) => {},
            Err(_) => {
                return Err(Status::InternalError);
            },
        }
        let ghost from = reader.pos();
        let ghost leaves = reader.extents();
        let n: usize = match reader.read(buffer) {
            Ok(n) => n,
            Err(_) => {
                return Err(Status::InternalError);
            },
        };
        proof {
            if n > 0 {
                assert(from == offset);
            }
            let s = Seq::new(
                n as nat,
                |k: int| file::file_byte(self.dev.bytes(), self.sb.block_size, leaves, offset + k),
            );
            assert(buffer@ =~= s + old(buffer)@.skip(s.len() as int));
        }
        Ok((n as u64 % 0x1_0000_0000) as u32)
    }
}

} // verus!
