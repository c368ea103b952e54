//! What is told of the volume.
use vstd::prelude::*;
use super::Status;
use crate::block_device::BlockDevice;
use crate::bytes;
use crate::fs_context::Ext4Fs;
use crate::group_desc::GroupDesc;
use crate::superblock::Superblock;

verus! {

/// What is told of the volume.
#[derive(Debug)]
pub struct VolumeInfo {
    pub total_size: u64,
    pub free_size: u64,
    pub volume_label: String,
}

/// `a * b`; the largest 64-bit number where that is over it.
fn bytes_in(a: u64, b: u64) -> (r: u64)
    ensures
        r == bytes::sat64(a * b),
{
    match a.checked_mul(b) {
        Some(n) => n,
        None => u64::MAX,
    }
}

/// How many bytes a volume has, of which how many are free.
pub open spec fn sizes(sb: Superblock, gdt: Seq<GroupDesc>) -> (u64, u64) {
    (
        bytes::sat64(sb.blocks_count * sb.block_size),
        bytes::sat64(bytes::sat64(super::free_blocks(gdt)) * sb.block_size),
    )
}

/// A volume has as many bytes as its blocks hold, and as many are free as the blocks hold that
/// its groups count as free: a block more in a group is a block more that is free. What is
/// over 64 bits is told as the largest number.
pub proof fn law_sizes(sb: Superblock, gdt: Seq<GroupDesc>, d: GroupDesc)
    ensures
        sb.blocks_count * sb.block_size <= u64::MAX ==> sizes(sb, gdt).0 == sb.blocks_count
            * sb.block_size,
        sizes(sb, Seq::empty()).1 == 0,
        (super::free_blocks(gdt) + d.free_blocks_count) * sb.block_size <= u64::MAX
            && sb.block_size > 0 ==> sizes(sb, gdt.push(d)).1 == sizes(sb, gdt).1
            + d.free_blocks_count * sb.block_size,
{
    assert(super::free_blocks(Seq::empty()) == 0);
    assert(0 * (sb.block_size as int) == 0);
    let f = super::free_blocks(gdt);
    let c = d.free_blocks_count as int;
    let b = sb.block_size as int;
    lemma_free_blocks(gdt);
    assert(gdt.push(d).drop_last() =~= gdt);
    assert(super::free_blocks(gdt.push(d)) == f + c);
    if (f + c) * b <= u64::MAX && b > 0 {
        assert((f + c) * b == f * b + c * b && f * b <= (f + c) * b && f + c <= (f + c) * b && f
            <= f * b) by (nonlinear_arith)
            requires
                b > 0,
                f >= 0,
                c >= 0,
        ;
    }
}

proof fn lemma_free_blocks(gdt: Seq<GroupDesc>)
    ensures
        super::free_blocks(gdt) >= 0,
    decreases gdt.len(),
{
    if gdt.len() > 0 {
        lemma_free_blocks(gdt.drop_last());
    }
}

impl<D: BlockDevice> Ext4Fs<D> {
    /// Tell of the volume: its size, what of it is free, and its name.
    pub fn fill_volume_info(&self, out: &mut VolumeInfo) -> (r: Result<(), Status>)
        ensures
            r is Ok,
            final(out).total_size == bytes::sat64(self.sb.blocks_count * self.sb.block_size),
            final(out).free_size == bytes::sat64(
                bytes::sat64(super::free_blocks(self.state().gdt)) * self.sb.block_size,
            ),
            (final(out).total_size, final(out).free_size) == sizes(self.sb, self.state().gdt),
            final(out).volume_label@ == self.sb.volume_name@,
    {
        let block_size: u64 = self.sb.block_size as u64;
        let free: u64 = super::count_free_blocks(&self.gdt);
        *out = VolumeInfo {
            total_size: bytes_in(self.sb.blocks_count, block_size),
            free_size: bytes_in(free, block_size),
            volume_label: self.sb.volume_name.as_str().to_owned(),
        };
        Ok(())
    }
}

} // verus!
