//! Who may use a file.
use vstd::prelude::*;
use super::file_info;
use super::Status;
use crate::block_device::BlockDevice;
use crate::bytes;
use crate::fs_context;
use crate::fs_context::Ext4Fs;
use crate::inode;
use crate::text;

verus! {

/// What is told of a file's security.
#[derive(Debug, Clone, Copy, PartialEq, Eq, Structural)]
pub struct FileSecurity {
    /// Whether the file is a reparse point.
    pub reparse: bool,
    /// Length of its security descriptor.
    pub sz_security_descriptor: u64,
    pub attributes: u32,
}

/// The SID of everyone, S-1-1-0.
pub open spec fn everyone() -> Seq<u8> {
    seq![1u8, 1u8, 0u8, 0u8, 0u8, 0u8, 0u8, 1u8, 0u8, 0u8, 0u8, 0u8]
}

/// The security descriptor of every file, in self-relative form: owned by
/// everyone, whom its one access control entry allows to read (0x120089).
pub open spec fn descriptor() -> Seq<u8> {
    // Revision 1, control 0x8004, owner at 48, group at 60, no SACL, DACL at 20.
    seq![1u8, 0u8, 0x04u8, 0x80u8]
        + seq![0x30u8, 0u8, 0u8, 0u8]
        + seq![0x3Cu8, 0u8, 0u8, 0u8]
        + seq![0u8, 0u8, 0u8, 0u8]
        + seq![0x14u8, 0u8, 0u8, 0u8]
        // DACL: revision 2, 28 bytes, one entry.
        + seq![2u8, 0u8, 0x1Cu8, 0u8]
        + seq![1u8, 0u8, 0u8, 0u8]
        // Access allowed, 20 bytes.
        + seq![0u8, 0u8, 0x14u8, 0u8]
        + seq![0x89u8, 0u8, 0x12u8, 0u8]
        + everyone() + everyone() + everyone()
}

/// Length of the security descriptor.
pub const DESCRIPTOR_LEN: usize = 72;

fn fixed_descriptor() -> (r: [u8; 72])
    ensures
        r@ == descriptor(),
{
    let d: [u8; 72] = [
        1, 0, 0x04, 0x80,
        0x30, 0, 0, 0,
        0x3C, 0, 0, 0,
        0, 0, 0, 0,
        0x14, 0, 0, 0,
        2, 0, 0x1C, 0,
        1, 0, 0, 0,
        0, 0, 0x14, 0,
        0x89, 0, 0x12, 0,
        1, 1, 0, 0, 0, 0, 0, 1, 0, 0, 0, 0,
        1, 1, 0, 0, 0, 0, 0, 1, 0, 0, 0, 0,
        1, 1, 0, 0, 0, 0, 0, 1, 0, 0, 0, 0,
    ];
    assert(d@ =~= descriptor());
    d
}

impl<D: BlockDevice> Ext4Fs<D> {
    /// Tell of the security of a file, and put as much of its security
    /// descriptor into `security_descriptor` as fits.
    pub fn security_by_name(&self, file_name: &str, security_descriptor: &mut [u8]) -> (r: Result<
        FileSecurity,
        Status,
    >)
        requires
            self.wf(),
        ensures
            final(security_descriptor)@.len() == old(security_descriptor)@.len(),
            r is Err ==> final(security_descriptor)@ == old(security_descriptor)@,
            r is Ok ==> forall|i: int|
                0 <= i < old(security_descriptor)@.len() ==> #[trigger] final(security_descriptor)@[i]
                    == (if i < 72 {
                    descriptor()[i]
                } else {
                    old(security_descriptor)@[i]
                }),
            r is Ok || self.dev.reliable() ==> r == (match fs_context::resolved(
                self.state().disk,
                self.sb,
                self.state().gdt,
                super::volume_path(file_name@),
            ) {
                Err(_) => Err::<FileSecurity, Status>(Status::ObjectNameNotFound),
                Ok(n) => match inode::inode_at(self.state().disk, self.sb, self.state().gdt, n) {
                    Err(_) => Err(Status::ObjectNameNotFound),
                    Ok(i) => Ok(
                        FileSecurity {
                            reparse: i.is_symlink(),
                            sz_security_descriptor: 72,
                            attributes: file_info::attributes(i),
                        },
                    ),
                },
            }),
    {
        let path = text::replace_char(file_name, '\\', "/");
        let num: u32 = match self.resolve_path(path.as_str()) {
            Ok(n) => n,
            Err(_) => {
                return Err(Status::ObjectNameNotFound);
            },
        };
        let inode = match self.inode(num) {
            Ok(i) => i,
            Err(_) => {
                return Err(Status::ObjectNameNotFound);
            },
        };
        let fixed = fixed_descriptor();
        let room: usize = security_descriptor.len();
        let n: usize = if room < DESCRIPTOR_LEN {
            room
        } else {
            DESCRIPTOR_LEN
        };
        let part = bytes::copy_range(fixed.as_slice(), 0, n);
        bytes::put_slice(security_descriptor, 0, part.as_slice());
        Ok(
            FileSecurity {
                reparse: inode.is_symlink(),
                sz_security_descriptor: DESCRIPTOR_LEN as u64,
                attributes: file_info::inode_to_file_attributes(&inode),
            },
        )
    }
}

} // verus!
