//! The bitmap of used inodes of a group.
use vstd::prelude::*;
use super::bits;
use super::bits::Bits;
use super::AllocError;
use crate::block_device;
use crate::block_device::BlockDevice;
use crate::group_desc;
use crate::group_desc::{GroupDesc, GroupDescTable};
use crate::superblock::Superblock;

verus! {

/// What loading the inode bitmap of `group` gives.
pub open spec fn loaded(disk: Seq<u8>, sb: Superblock, gdt: Seq<GroupDesc>, group: int) -> Result<
    Seq<u8>,
    AllocError,
> {
    match group_desc::desc_at(gdt, group) {
        Err(e) => Err(AllocError::GroupDesc(e)),
        Ok(d) => match block_device::block_at(disk, sb.block_size, d.inode_bitmap) {
            Err(e) => Err(AllocError::BlockDevice(e)),
            Ok(bm) => Ok(bm),
        },
    }
}

/// The bitmap of used inodes of a group.
pub struct InodeBitmap {
    bits: Bits,
}

impl View for InodeBitmap {
    type V = Seq<u8>;

    closed spec fn view(&self) -> Seq<u8> {
        self.bits.data@
    }
}

impl InodeBitmap {
    /// The bitmap in the given bytes.
    pub fn from_bytes(data: Vec<u8>) -> (r: Self)
        ensures
            r@ == data@,
    {
        InodeBitmap { bits: Bits { data } }
    }

    /// Load the bitmap of a group from the volume.
    pub fn load<D: BlockDevice>(
        dev: &D,
        sb: &Superblock,
        gdt: &GroupDescTable,
        group: usize,
    ) -> (r: Result<Self, AllocError>)
        requires
            sb.wf(),
        ensures
            r is Ok || dev.reliable() ==> match loaded(dev.bytes(), *sb, gdt@, group as int) {
                Ok(s) => r is Ok && r->Ok_0@ == s,
                Err(e) => r is Err && r->Err_0 == e,
            },
            r is Ok ==> r->Ok_0@.len() == sb.block_size,
    {
        let desc = match gdt.get(group) {
            Ok(d) => *d,
            Err(e) => {
                return Err(AllocError::GroupDesc(e));
            },
        };
        match block_device::read_block(dev, sb.block_size, desc.inode_bitmap) {
            Ok(data) => Ok(InodeBitmap::from_bytes(data)),
            Err(e) => Err(AllocError::BlockDevice(e)),
        }
    }

    pub fn is_allocated(&self, inode_in_group: u32) -> (r: bool)
        requires
            inode_in_group < 8 * self@.len(),
        ensures
            r == bits::bit(self@, inode_in_group as int),
    {
        self.bits.is_set(inode_in_group)
    }

    /// Mark an inode as allocated. Returns false if it already was.
    pub fn allocate(&mut self, inode_in_group: u32) -> (r: bool)
        requires
            inode_in_group < 8 * old(self)@.len(),
        ensures
            r == !bits::bit(old(self)@, inode_in_group as int),
            final(self)@ == bits::with_bit(old(self)@, inode_in_group as int),
    {
        self.bits.set(inode_in_group)
    }

    /// Mark an inode as free. Returns false if it already was.
    pub fn free(&mut self, inode_in_group: u32) -> (r: bool)
        requires
            inode_in_group < 8 * old(self)@.len(),
        ensures
            r == bits::bit(old(self)@, inode_in_group as int),
            final(self)@ == bits::without_bit(old(self)@, inode_in_group as int),
    {
        self.bits.clear(inode_in_group)
    }

    /// The first free inode of the group, counted from 0.
    pub fn first_free(&self) -> (r: Option<u32>)
        requires
            8 * self@.len() <= u32::MAX,
        ensures
            r == bits::first_clear(self@),
            match r {
                Some(k) => bits::is_first_clear(self@, k as int),
                None => forall|j: int| 0 <= j < 8 * self@.len() ==> #[trigger] bits::bit(self@, j),
            },
    {
        self.bits.first_clear()
    }

    pub fn as_bytes(&self) -> (s: &[u8])
        ensures
            s@ == self@,
    {
        self.bits.data.as_slice()
    }

    pub(crate) fn into_bytes(self) -> (v: Vec<u8>)
        ensures
            v@ == self@,
    {
        self.bits.data
    }
}

} // verus!
