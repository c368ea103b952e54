//! The bitmap of used blocks of a group.
use vstd::prelude::*;
use super::bits;
use super::bits::Bits;
use super::AllocError;
use crate::block_device;
use crate::block_device::BlockDevice;
use crate::group_desc;
use crate::group_desc::{GroupDesc, GroupDescTable};
use crate::superblock::Superblock;

verus! {

/// What loading the block bitmap of `group` gives.
pub open spec fn loaded(disk: Seq<u8>, sb: Superblock, gdt: Seq<GroupDesc>, group: int) -> Result<
    Seq<u8>,
    AllocError,
> {
    match group_desc::desc_at(gdt, group) {
        Err(e) => Err(AllocError::GroupDesc(e)),
        Ok(d) => match block_device::block_at(disk, sb.block_size, d.block_bitmap) {
            Err(e) => Err(AllocError::BlockDevice(e)),
            Ok(bm) => Ok(bm),
        },
    }
}

/// The bitmap of used blocks of a group.
pub struct BlockBitmap {
    bits: Bits,
    group: usize,
}

impl View for BlockBitmap {
    type V = Seq<u8>;

    closed spec fn view(&self) -> Seq<u8> {
        self.bits.data@
    }
}

impl BlockBitmap {
    /// The group that the bitmap belongs to.
    pub closed spec fn group(&self) -> usize {
        self.group
    }

    /// The bitmap of group `group_index` in the given bytes.
    pub fn from_bytes(data: Vec<u8>, group_index: usize) -> (r: Self)
        ensures
            r@ == data@,
            r.group() == group_index,
    {
        BlockBitmap { bits: Bits { data }, group: group_index }
    }

    /// Load the bitmap of a group from the volume.
    pub fn load<D: BlockDevice>(
        dev: &D,
        sb: &Superblock,
        gdt: &GroupDescTable,
        group: usize,
    ) -> (r: Result<Self, AllocError>)
        requires
            sb.wf(),
        ensures
            r is Ok || dev.reliable() ==> match loaded(dev.bytes(), *sb, gdt@, group as int) {
                Ok(s) => r is Ok && r->Ok_0@ == s && r->Ok_0.group() == group,
                Err(e) => r is Err && r->Err_0 == e,
            },
            r is Ok ==> r->Ok_0@.len() == sb.block_size,
    {
        let desc = match gdt.get(group) {
            Ok(d) => *d,
            Err(e) => {
                return Err(AllocError::GroupDesc(e));
            },
        };
        match block_device::read_block(dev, sb.block_size, desc.block_bitmap) {
            Ok(data) => Ok(BlockBitmap::from_bytes(data, group)),
            Err(e) => Err(AllocError::BlockDevice(e)),
        }
    }

    pub fn is_allocated(&self, block_in_group: u32) -> (r: bool)
        requires
            block_in_group < 8 * self@.len(),
        ensures
            r == bits::bit(self@, block_in_group as int),
    {
        self.bits.is_set(block_in_group)
    }

    /// Mark a block as allocated. Returns false if it already was.
    pub fn allocate(&mut self, block_in_group: u32) -> (r: bool)
        requires
            block_in_group < 8 * old(self)@.len(),
        ensures
            r == !bits::bit(old(self)@, block_in_group as int),
            final(self)@ == bits::with_bit(old(self)@, block_in_group as int),
            final(self).group() == old(self).group(),
    {
        self.bits.set(block_in_group)
    }

    /// Mark a block as free. Returns false if it already was.
    pub fn free(&mut self, block_in_group: u32) -> (r: bool)
        requires
            block_in_group < 8 * old(self)@.len(),
        ensures
            r == bits::bit(old(self)@, block_in_group as int),
            final(self)@ == bits::without_bit(old(self)@, block_in_group as int),
            final(self).group() == old(self).group(),
    {
        self.bits.clear(block_in_group)
    }

    /// The first free block of the group.
    pub fn first_free(&self) -> (r: Option<u32>)
        requires
            8 * self@.len() <= u32::MAX,
        ensures
            match r {
                Some(k) => bits::is_first_clear(self@, k as int),
                None => forall|j: int| 0 <= j < 8 * self@.len() ==> #[trigger] bits::bit(self@, j),
            },
    {
        self.bits.first_clear()
    }

    /// The first of `count` free blocks in a row, among the first
    /// `bits_in_group` blocks of the group.
    pub fn first_free_run(&self, count: u32, bits_in_group: u32) -> (r: Option<u32>)
        requires
            8 * self@.len() <= u32::MAX,
        ensures
            r == bits::first_run(self@, count as int, bits_in_group as int),
            match r {
                Some(k) => bits::is_first_run(
                    self@,
                    count as int,
                    bits_in_group as int,
                    k as int,
                ),
                None => forall|j: int|
                    0 <= j && j + count <= bits_in_group && j + count <= 8 * self@.len()
                        ==> !#[trigger] bits::run_clear(self@, j, count as int),
            },
    {
        self.bits.first_run(count, bits_in_group)
    }

    pub fn as_bytes(&self) -> (s: &[u8])
        ensures
            s@ == self@,
    {
        self.bits.data.as_slice()
    }

    pub(crate) fn into_bytes(self) -> (v: Vec<u8>)
        ensures
            v@ == self@,
    {
        self.bits.data
    }
}

} // verus!
