//! What reading an inode inside a transaction and on the device agree on.
use vstd::prelude::*;
use super::volume;
use crate::block_device;
use crate::bytes;
use crate::group_desc::GroupDesc;
use crate::inode;
use crate::journal::laws;
use crate::journal::replay;
use crate::journal::writer;
use crate::superblock::Superblock;

verus! {

/// Writing blocks to their homes changes no other block's bytes.
proof fn lemma_applied_kept(disk: Seq<u8>, bs: u32, blocks: Seq<(u64, Seq<u8>)>, k: int)
    requires
        block_device::sectored(bs),
        laws::listed_once(blocks, bs),
        0 <= k,
    ensures
        block_device::kept_but(
            disk,
            replay::applied(disk, bs, blocks, k).0,
            bs,
            writer::homes(blocks),
        ),
    decreases blocks.len() - k,
{
    if k < blocks.len() {
        let b = blocks[k].0;
        let next = block_device::with_block(disk, bs, b, blocks[k].1);
        block_device::lemma_block_at(disk, bs, b);
        block_device::lemma_kept_but(bs, b);
        assert(writer::homes(blocks).contains(b));
        lemma_applied_kept(next, bs, blocks, k + 1);
    }
}

/// The record of an inode lies in one block: its bytes, and those around it that are
/// read with it.
pub proof fn lemma_record_block(sb: Superblock, d: GroupDesc, num: u32)
    requires
        sb.wf(),
        num > 0,
        d.inode_table + inode::index_of(sb, num) / inode::inodes_per_block(sb) <= u64::MAX,
    ensures
        ({
            let bs = sb.block_size as int;
            let at = inode::slot_byte(sb, d, num);
            let b = inode::slot_block(sb, d, num);
            let count = bytes::ceil_div(at % 512 + sb.inode_size, 512);
            &&& at == b * bs + inode::slot_offset(sb, num)
            &&& b * bs <= 512 * (at / 512)
            &&& 512 * (at / 512 + count) <= b * bs + bs
            &&& 0 <= at
        }),
{
    let bs = sb.block_size as int;
    let n = sb.inode_size as int;
    let k = inode::inodes_per_block(sb);
    let i = inode::index_of(sb, num);
    let o = inode::slot_offset(sb, num);
    let at = inode::slot_byte(sb, d, num);
    let b = inode::slot_block(sb, d, num);
    inode::lemma_slot_offset(sb, num);
    block_device::lemma_block_at(Seq::empty(), sb.block_size, b);
    assert(k * n == bs) by {
        let bs = sb.block_size;
        assert((bs as int / 128) * 128 == bs && (bs as int / 256) * 256 == bs && (bs as int / 512)
            * 512 == bs && (bs as int / 1024) * 1024 == bs);
    }
    vstd::arithmetic::div_mod::lemma_fundamental_div_mod(i, k);
    vstd::arithmetic::div_mod::lemma_div_pos_is_pos(i, k);
    assert(at == b * bs + o) by (nonlinear_arith)
        requires
            at == d.inode_table * bs + i * n,
            b == d.inode_table + i / k,
            o == (i % k) * n,
            i == k * (i / k) + i % k,
            k * n == bs,
    ;
    assert((b * bs) % 512 == 0 && (b * bs + bs) % 512 == 0) by {
        assert(512 * (b * (bs / 512)) == b * bs);
        let q = b * (bs / 512);
        assert((512 * q) % 512 == 0);
        assert((512 * q + bs) % 512 == 0);
    }
}

/// Reading an inode inside a transaction gives what reading it gives on the device
/// once the transaction's blocks are in place, errors too. One whose table block is
/// not pinned reads as on the device before.
///
/// Devices of more than 2^64 bytes are left out: a record behind that many is out of
/// reach on the device, and not in a pinned block.
#[verifier::rlimit(100)]
pub proof fn law_read_in_txn(
    disk: Seq<u8>,
    sb: Superblock,
    gdt: Seq<GroupDesc>,
    pins: Seq<(u64, Seq<u8>)>,
    num: u32,
)
    requires
        sb.wf(),
        disk.len() % 512 == 0,
        disk.len() <= u64::MAX,
        laws::listed_once(pins, sb.block_size),
        replay::applied(disk, sb.block_size, pins, 0).1 is Ok,
    ensures
        inode::inode_in_txn(disk, sb, gdt, pins, num) == inode::inode_at(
            replay::applied(disk, sb.block_size, pins, 0).0,
            sb,
            gdt,
            num,
        ),
        inode::inode_in_range(sb, num) && inode::group_of(sb, num) < gdt.len()
            && writer::pinned(
            pins,
            inode::slot_block(sb, gdt[inode::group_of(sb, num)], num),
        ) is None ==> inode::inode_in_txn(disk, sb, gdt, pins, num) == inode::inode_at(
            disk,
            sb,
            gdt,
            num,
        ),
{
    let bs = sb.block_size;
    let d2 = replay::applied(disk, bs, pins, 0).0;
    let g = inode::group_of(sb, num);
    laws::law_applied(disk, bs, pins, 0, 0);
    if inode::inode_in_range(sb, num) && 0 <= g < gdt.len() {
        let d = gdt[g];
        let b = inode::slot_block(sb, d, num);
        let at = inode::slot_byte(sb, d, num);
        writer::lemma_pin_index(pins, b);
        let i = writer::pin_index(pins, b);
        inode::lemma_slot_offset(sb, num);
        let far = d.inode_table + inode::index_of(sb, num) / inode::inodes_per_block(sb)
            > u64::MAX;
        if i < pins.len() {
            assert(laws::holds(d2, bs, pins[i].0, pins[i].1));
            block_device::lemma_block_at(d2, bs, b);
            if far {
                assert(b * bs > u64::MAX) by (nonlinear_arith)
                    requires
                        b == u64::MAX,
                        bs >= 1024,
                ;
            }
            lemma_record_block(sb, d, num);
            volume::lemma_record_in_block(d2, sb, gdt, num);
        } else {
            lemma_applied_kept(disk, bs, pins, 0);
            if far {
                vstd::arithmetic::div_mod::lemma_div_pos_is_pos(
                    inode::index_of(sb, num),
                    inode::inodes_per_block(sb),
                );
                lemma_far(sb, d, num);
            } else {
                lemma_record_block(sb, d, num);
                block_device::lemma_kept_but(bs, b);
                assert(!writer::homes(pins).contains(b)) by {
                    if writer::homes(pins).contains(b) {
                        let k = choose|k: int|
                            0 <= k < pins.len() && (#[trigger] pins[k]).0 == b;
                    }
                }
                let start = at / 512;
                let count = bytes::ceil_div(at % 512 + sb.inode_size, 512);
                if at <= u64::MAX && start + count <= block_device::sectors(disk) {
                    let x = disk.subrange(512 * start, 512 * (start + count));
                    let y = d2.subrange(512 * start, 512 * (start + count));
                    assert(y =~= x) by {
                        assert forall|j: int| 0 <= j < x.len() implies y[j] == x[j] by {
                            let p = 512 * start + j;
                            assert(p / (bs as int) == b);
                            assert(d2[p] == disk[p]);
                        }
                    }
                }
            }
        }
    } else if inode::inode_in_range(sb, num) {
        vstd::arithmetic::div_mod::lemma_div_pos_is_pos(num - 1, sb.inodes_per_group as int);
    }
}

/// A record in a block whose number is over 64 bits lies behind what can be addressed.
proof fn lemma_far(sb: Superblock, d: GroupDesc, num: u32)
    requires
        sb.wf(),
        num > 0,
        d.inode_table + inode::index_of(sb, num) / inode::inodes_per_block(sb) > u64::MAX,
    ensures
        inode::slot_byte(sb, d, num) > u64::MAX,
{
    let bs = sb.block_size as int;
    let n = sb.inode_size as int;
    let k = inode::inodes_per_block(sb);
    let i = inode::index_of(sb, num);
    inode::lemma_slot_offset(sb, num);
    assert(k * n == bs) by {
        let bs = sb.block_size;
        assert((bs as int / 128) * 128 == bs && (bs as int / 256) * 256 == bs && (bs as int / 512)
            * 512 == bs && (bs as int / 1024) * 1024 == bs);
    }
    vstd::arithmetic::div_mod::lemma_fundamental_div_mod(i, k);
    vstd::arithmetic::div_mod::lemma_mod_bound(i, k);
    assert(d.inode_table * bs + i * n >= (d.inode_table + i / k) * bs) by (nonlinear_arith)
        requires
            i == k * (i / k) + i % k,
            i % k >= 0,
            k * n == bs,
            n > 0,
    ;
    assert((d.inode_table + i / k) * bs > u64::MAX) by (nonlinear_arith)
        requires
            d.inode_table + i / k > u64::MAX,
            bs >= 1024,
    ;
}

} // verus!
