//! Sound volumes: which block is whose, and what allocating and writing a block
//! leave alone.
use vstd::prelude::*;
use super::tree;
use crate::allocator;
use crate::allocator::bits;
use crate::allocator::block_alloc;
use crate::allocator::block_bitmap;
use crate::block_device;
use crate::block_device::BlockDeviceError;
use crate::bytes;
use crate::extent;
use crate::extent::{ExtentError, ExtentLeaf};
use crate::extent_write;
use crate::fs_state;
use crate::fs_state::FsState;
use crate::group_desc::GroupDesc;
use crate::inode;
use crate::inode::{InodeError, InodeView};
use crate::inode_write;
use crate::inode_write::InodeUpdate;
use crate::journal::writer;
use crate::superblock::Superblock;

verus! {

/// Block numbers in a tree have 48 bits.
pub const BLOCK_END: u64 = 0x1_0000_0000_0000;

/// Whether the bitmap of its group says that block `b` is used.
#[verifier::opaque]
pub open spec fn used(st: FsState, sb: Superblock, b: u64) -> bool {
    let g = block_alloc::group_of(sb, b);
    let k = block_alloc::bit_of(sb, b);
    &&& b >= sb.first_data_block
    &&& g < st.gdt.len()
    &&& block_bitmap::loaded(st.disk, sb, st.gdt, g) is Ok
    &&& k < 8 * block_bitmap::loaded(st.disk, sb, st.gdt, g)->Ok_0.len()
    &&& bits::bit(block_bitmap::loaded(st.disk, sb, st.gdt, g)->Ok_0, k)
}

/// Whether block `b` is the bitmap of used blocks of group `g`, or holds its
/// descriptor.
pub open spec fn is_of_group(gdt: Seq<GroupDesc>, sb: Superblock, g: int, b: u64) -> bool {
    gdt[g].block_bitmap == b || block_alloc::gdt_block(sb, g) == b
}

/// Whether block `b` is a group's bitmap of used blocks, or holds its
/// descriptor.
#[verifier::opaque]
pub open spec fn is_group_block(gdt: Seq<GroupDesc>, sb: Superblock, b: u64) -> bool {
    exists|g: int| 0 <= g < gdt.len() && #[trigger] is_of_group(gdt, sb, g, b)
}

/// Whether the transaction sees in block `b` what is on the device.
#[verifier::opaque]
pub open spec fn agrees(st: FsState, bs: u32, b: u64) -> bool {
    fs_state::fetched(st.disk, st.txn.blocks, bs, b) == block_device::block_at(st.disk, bs, b)
}

/// Whether block `b` is the same in `s` as in `st`, on the device and as the
/// transaction sees it.
pub open spec fn untouched(st: FsState, s: FsState, bs: u32, b: u64) -> bool {
    &&& block_device::block_at(s.disk, bs, b) == block_device::block_at(st.disk, bs, b)
    &&& fs_state::fetched(s.disk, s.txn.blocks, bs, b) == fs_state::fetched(
        st.disk,
        st.txn.blocks,
        bs,
        b,
    )
}

/// Whether `disk` is what the transaction of `st` sees, outside of the journal's
/// blocks `log`: once it is committed, that is on the device.
pub open spec fn sees(st: FsState, bs: u32, log: Seq<u64>, disk: Seq<u8>) -> bool {
    &&& disk.len() == st.disk.len()
    &&& forall|b: u64| #![trigger block_device::block_at(disk, bs, b)]
        !log.contains(b) ==> block_device::block_at(disk, bs, b) == fs_state::fetched(
            st.disk,
            st.txn.blocks,
            bs,
            b,
        )
}

/// Whether the groups are where they were.
pub open spec fn same_layout(a: Seq<GroupDesc>, b: Seq<GroupDesc>) -> bool {
    &&& a.len() == b.len()
    &&& forall|g: int| #![trigger a[g]] #![trigger b[g]]
        0 <= g < a.len() ==> a[g].block_bitmap == b[g].block_bitmap && a[g].inode_bitmap
            == b[g].inode_bitmap && a[g].inode_table == b[g].inode_table
}

/// Whether a volume's bitmaps and descriptors can be read, and are themselves
/// marked as used.
pub open spec fn sound_volume(st: FsState, sb: Superblock) -> bool {
    &&& allocator::laws::fits(st, sb)
    &&& sb.first_data_block + st.gdt.len() * sb.blocks_per_group <= BLOCK_END
    &&& block_device::sectors(st.disk) >= extent::MAX_DEPTH
    &&& forall|g: int|
        0 <= g < st.gdt.len() ==> block_device::block_at(
            st.disk,
            sb.block_size,
            #[trigger] block_alloc::gdt_block(sb, g),
        ) is Ok && used(st, sb, block_alloc::gdt_block(sb, g))
    &&& forall|g: int|
        0 <= g < st.gdt.len() ==> used(st, sb, (#[trigger] st.gdt[g]).block_bitmap)
            && block_device::block_at(st.disk, sb.block_size, st.gdt[g].block_bitmap) is Ok
}

/// The block of the inode table that holds inode `num`.
pub open spec fn table_block(gdt: Seq<GroupDesc>, sb: Superblock, num: u32) -> u64 {
    inode::slot_block(sb, gdt[inode::group_of(sb, num)], num)
}

/// Whether table block `a` is `b` but for the record of inode `num`.
pub open spec fn same_beside(a: Seq<u8>, b: Seq<u8>, sb: Superblock, num: u32) -> bool {
    let o = inode::slot_offset(sb, num);
    a.len() == b.len() && forall|j: int|
        0 <= j < a.len() && !(o <= j < o + 128) ==> #[trigger] a[j] == b[j]
}

/// Whether the block that holds the record of inode `num` can be read, and nothing
/// in it changed but that record.
pub open spec fn record_changed(st: FsState, s: FsState, sb: Superblock, num: u32) -> bool {
    record_changed_on(st, s.disk, sb, num)
}

/// The same on the device `disk`.
pub open spec fn record_changed_on(st: FsState, disk: Seq<u8>, sb: Superblock, num: u32) -> bool {
    let t = table_block(st.gdt, sb, num);
    &&& block_device::block_at(disk, sb.block_size, t) is Ok
    &&& same_beside(
        block_device::block_at(disk, sb.block_size, t)->Ok_0,
        block_device::block_at(st.disk, sb.block_size, t)->Ok_0,
        sb,
        num,
    )
}

/// The inode that is on the device.
pub open spec fn inode_now(st: FsState, sb: Superblock, num: u32) -> InodeView {
    inode::inode_at(st.disk, sb, st.gdt, num)->Ok_0
}

/// The extents of a file, from left to right.
pub open spec fn extents_now(st: FsState, sb: Superblock, num: u32) -> Seq<ExtentLeaf> {
    extent::file_leaves(st.disk, sb, true, inode_now(st, sb, num).block_data)->Ok_0
}

/// Whether block `b` holds a node of a file's tree.
pub open spec fn node_block(st: FsState, sb: Superblock, num: u32, d: nat, b: u64) -> bool {
    tree::within(st.disk, sb.block_size, inode_now(st, sb, num).block_data, d, b)
}

/// Whether block `b` is used, and is neither a group's nor the block of the
/// file's inode.
pub open spec fn kept_apart(st: FsState, sb: Superblock, num: u32, b: u64) -> bool {
    &&& used(st, sb, b)
    &&& !is_group_block(st.gdt, sb, b)
    &&& b != table_block(st.gdt, sb, num)
}

/// Whether the inode of a file can be read and written.
pub open spec fn sound_slot(st: FsState, sb: Superblock, num: u32) -> bool {
    let t = table_block(st.gdt, sb, num);
    &&& inode::inode_at(st.disk, sb, st.gdt, num) is Ok
    &&& inode_now(st, sb, num).uses_extents()
    &&& st.gdt[inode::group_of(sb, num)].inode_table + inode::index_of(sb, num)
        / inode::inodes_per_block(sb) <= u64::MAX
    &&& block_device::block_at(st.disk, sb.block_size, t) is Ok
    &&& used(st, sb, t)
    &&& !is_group_block(st.gdt, sb, t)
    &&& agrees(st, sb.block_size, t)
}

/// Whether file `num` of a sound volume is sound: its tree is, each block of the
/// tree and of the data is marked as used, and none of them is anything else.
pub open spec fn sound_file(st: FsState, sb: Superblock, num: u32, d: nat) -> bool {
    let v = extents_now(st, sb, num);
    &&& sound_volume(st, sb)
    &&& sound_slot(st, sb, num)
    &&& tree::sound(
        st.disk,
        sb.block_size,
        inode_now(st, sb, num).block_data,
        d,
        0,
        tree::LOGICAL_END as int,
    )
    &&& forall|b: u64| #[trigger]
        node_block(st, sb, num, d, b) ==> kept_apart(st, sb, num, b) && agrees(
            st,
            sb.block_size,
            b,
        )
    &&& forall|l: u64|
        (#[trigger] extent::mapped(v, l)) is Some ==> kept_apart(
            st,
            sb,
            num,
            extent::mapped(v, l)->Some_0,
        ) && !node_block(st, sb, num, d, extent::mapped(v, l)->Some_0)
    &&& forall|l: u64, m: u64|
        (#[trigger] extent::mapped(v, l)) is Some && l != m ==> extent::mapped(v, l)
            != #[trigger] extent::mapped(v, m)
}

/// Whether `s` is `st` but for blocks that no file's reader and no bitmap's
/// reader would miss: groups lie where they lay, and what was used still is.
pub open spec fn later(st: FsState, s: FsState, sb: Superblock) -> bool {
    &&& same_layout(st.gdt, s.gdt)
    &&& s.disk.len() == st.disk.len()
    &&& forall|b: u64| used(st, sb, b) ==> #[trigger] used(s, sb, b)
}

/// A block can be read wherever the device is large enough.
pub proof fn lemma_readable(a: Seq<u8>, b: Seq<u8>, bs: u32, x: u64)
    requires
        block_device::sectored(bs),
        a.len() == b.len(),
    ensures
        block_device::block_at(a, bs, x) is Ok == block_device::block_at(b, bs, x) is Ok,
{
    block_device::lemma_block_at(a, bs, x);
    block_device::lemma_block_at(b, bs, x);
}

/// A volume stays sound.
pub proof fn lemma_volume_kept(st: FsState, s: FsState, sb: Superblock)
    requires
        sound_volume(st, sb),
        later(st, s, sb),
    ensures
        sound_volume(s, sb),
        forall|b: u64| is_group_block(st.gdt, sb, b) == #[trigger] is_group_block(s.gdt, sb, b),
{
    reveal(is_group_block);
    assert forall|g: int| 0 <= g < s.gdt.len() implies block_device::block_at(
        s.disk,
        sb.block_size,
        #[trigger] block_alloc::gdt_block(sb, g),
    ) is Ok && used(s, sb, block_alloc::gdt_block(sb, g)) by {
        assert(used(st, sb, block_alloc::gdt_block(sb, g)));
        lemma_readable(st.disk, s.disk, sb.block_size, block_alloc::gdt_block(sb, g));
    }
    assert forall|g: int| 0 <= g < s.gdt.len() implies used(
        s,
        sb,
        (#[trigger] s.gdt[g]).block_bitmap,
    ) && block_device::block_at(s.disk, sb.block_size, s.gdt[g].block_bitmap) is Ok by {
        assert(used(st, sb, st.gdt[g].block_bitmap));
        lemma_readable(st.disk, s.disk, sb.block_size, st.gdt[g].block_bitmap);
    }
    assert forall|b: u64| is_group_block(
        st.gdt,
        sb,
        b,
    ) == #[trigger] is_group_block(s.gdt, sb, b) by {
        if is_group_block(st.gdt, sb, b) {
            let g = choose|g: int|
                0 <= g < st.gdt.len() && #[trigger] is_of_group(st.gdt, sb, g, b);
            assert(s.gdt[g].block_bitmap == st.gdt[g].block_bitmap);
            assert(is_of_group(s.gdt, sb, g, b));
        }
        if is_group_block(s.gdt, sb, b) {
            let g = choose|g: int|
                0 <= g < s.gdt.len() && #[trigger] is_of_group(s.gdt, sb, g, b);
            assert(st.gdt[g].block_bitmap == s.gdt[g].block_bitmap);
            assert(is_of_group(st.gdt, sb, g, b));
        }
    }
}

/// The record of an inode lies in the block of the table that is said to hold
/// it.
pub proof fn lemma_record_in_block(
    disk: Seq<u8>,
    sb: Superblock,
    gdt: Seq<GroupDesc>,
    num: u32,
)
    requires
        sb.wf(),
        num > 0,
        0 <= inode::group_of(sb, num) < gdt.len(),
        gdt[inode::group_of(sb, num)].inode_table + inode::index_of(sb, num)
            / inode::inodes_per_block(sb) <= u64::MAX,
        inode::slot_byte(sb, gdt[inode::group_of(sb, num)], num) <= u64::MAX,
        block_device::block_at(disk, sb.block_size, table_block(gdt, sb, num)) is Ok,
    ensures
        ({
            let o = inode::slot_offset(sb, num);
            let t = block_device::block_at(
                disk,
                sb.block_size,
                table_block(gdt, sb, num),
            )->Ok_0;
            &&& t.len() == sb.block_size
            &&& 0 <= o
            &&& o + 128 <= sb.block_size
            &&& inode::record_at(
                disk,
                sb,
                inode::slot_byte(sb, gdt[inode::group_of(sb, num)], num),
            ) == Ok::<Seq<u8>, BlockDeviceError>(t.subrange(o, o + 128))
        }),
{
    let d = gdt[inode::group_of(sb, num)];
    let b = table_block(gdt, sb, num);
    let bs = sb.block_size as int;
    let n = sb.inode_size as int;
    let k = inode::inodes_per_block(sb);
    let i = inode::index_of(sb, num);
    let o = inode::slot_offset(sb, num);
    let at = inode::slot_byte(sb, d, num);
    inode::lemma_slot_offset(sb, num);
    block_device::lemma_block_at(disk, sb.block_size, b);
    assert(k * n == bs) by {
        let bs = sb.block_size;
        assert((bs as int / 128) * 128 == bs && (bs as int / 256) * 256 == bs && (bs as int / 512)
            * 512 == bs && (bs as int / 1024) * 1024 == bs);
    }
    vstd::arithmetic::div_mod::lemma_fundamental_div_mod(i, k);
    vstd::arithmetic::div_mod::lemma_div_pos_is_pos(i, k);
    assert(b == d.inode_table + i / k);
    assert(at == b * bs + o) by (nonlinear_arith)
        requires
            at == d.inode_table * bs + i * n,
            b == d.inode_table + i / k,
            o == (i % k) * n,
            i == k * (i / k) + i % k,
            k * n == bs,
    ;
    let t = block_device::block_at(disk, sb.block_size, b)->Ok_0;
    let start = at / 512;
    let count = bytes::ceil_div(at % 512 + n, 512);
    assert((b * bs) % 512 == 0 && (b * bs + bs) % 512 == 0) by {
        assert(512 * (b * (bs / 512)) == b * bs);
        let q = b * (bs / 512);
        assert((512 * q) % 512 == 0);
        assert((512 * q + bs) % 512 == 0);
    }
    assert(start + count <= (b * bs + bs) / 512);
    assert(count >= 1);
    assert(512 * start <= at);
    let s = disk.subrange(512 * start, 512 * (start + count));
    assert(s.subrange(at % 512, at % 512 + 128) =~= t.subrange(o, o + 128));
}

/// Where an inode can be read, its record is in range.
pub proof fn lemma_slot_read(st: FsState, sb: Superblock, num: u32)
    requires
        sb.wf(),
        sound_slot(st, sb, num),
    ensures
        num > 0,
        0 <= inode::group_of(sb, num) < st.gdt.len(),
        inode::slot_byte(sb, st.gdt[inode::group_of(sb, num)], num) <= u64::MAX,
        ({
            let o = inode::slot_offset(sb, num);
            let t = block_device::block_at(
                st.disk,
                sb.block_size,
                table_block(st.gdt, sb, num),
            )->Ok_0;
            let rec = t.subrange(o, o + 128);
            &&& t.len() == sb.block_size
            &&& 0 <= o
            &&& o + 128 <= sb.block_size
            &&& inode::inode_at(st.disk, sb, st.gdt, num) == inode::live_inode(rec, num)
            &&& inode_now(st, sb, num) == inode::inode_of(rec)
            &&& bytes::le32(rec, 20) == 0
            &&& rec.len() == 128
            &&& extent_write::opened(st, sb, num) == Ok::<
                Seq<u8>,
                extent_write::ExtentWriteError,
            >(rec)
        }),
{
    reveal(agrees);
    vstd::arithmetic::div_mod::lemma_div_pos_is_pos(num - 1, sb.inodes_per_group as int);
    lemma_record_in_block(st.disk, sb, st.gdt, num);
}

/// An inode reads the same where its block and the groups' places did not
/// change.
pub proof fn lemma_slot_kept(st: FsState, s: FsState, sb: Superblock, num: u32)
    requires
        sound_volume(st, sb),
        sound_slot(st, sb, num),
        later(st, s, sb),
        block_device::block_at(s.disk, sb.block_size, table_block(st.gdt, sb, num))
            == block_device::block_at(st.disk, sb.block_size, table_block(st.gdt, sb, num)),
        agrees(s, sb.block_size, table_block(st.gdt, sb, num)),
    ensures
        sound_slot(s, sb, num),
        table_block(s.gdt, sb, num) == table_block(st.gdt, sb, num),
        inode::inode_at(s.disk, sb, s.gdt, num) == inode::inode_at(st.disk, sb, st.gdt, num),
{
    lemma_slot_read(st, sb, num);
    let g = inode::group_of(sb, num);
    assert(st.gdt[g].inode_table == s.gdt[g].inode_table);
    lemma_record_in_block(s.disk, sb, s.gdt, num);
    lemma_volume_kept(st, s, sb);
    assert(used(s, sb, table_block(st.gdt, sb, num)));
}

/// A sound file's extents can be listed.
pub proof fn lemma_extents(st: FsState, sb: Superblock, num: u32, d: nat)
    requires
        sound_file(st, sb, num, d),
    ensures
        d <= extent::MAX_DEPTH,
        d <= block_device::sectors(st.disk),
        extent::file_leaves(st.disk, sb, true, inode_now(st, sb, num).block_data) is Ok,
        tree::in_range(extents_now(st, sb, num), 0, tree::LOGICAL_END as int),
        extents_now(st, sb, num) == extent::tree_leaves(
            st.disk,
            sb.block_size,
            inode_now(st, sb, num).block_data,
            block_device::sectors(st.disk) as nat,
        )->Ok_0,
{
    let root = inode_now(st, sb, num).block_data;
    assert(extent::header(root).eh_depth == d);
    tree::law_listed(
        st.disk,
        sb.block_size,
        root,
        d,
        0,
        tree::LOGICAL_END as int,
        block_device::sectors(st.disk) as nat,
    );
}

/// A file stays sound and reads the same where its inode and the blocks of its
/// tree did not change.
pub proof fn lemma_file_stays(st: FsState, s: FsState, sb: Superblock, num: u32, d: nat)
    requires
        sound_file(st, sb, num, d),
        later(st, s, sb),
        inode::inode_at(s.disk, sb, s.gdt, num) == inode::inode_at(st.disk, sb, st.gdt, num),
        agrees(s, sb.block_size, table_block(st.gdt, sb, num)),
        forall|b: u64| #[trigger]
            node_block(st, sb, num, d, b) ==> block_device::block_at(s.disk, sb.block_size, b)
                == block_device::block_at(st.disk, sb.block_size, b) && agrees(
                s,
                sb.block_size,
                b,
            ),
    ensures
        sound_file(s, sb, num, d),
        table_block(s.gdt, sb, num) == table_block(st.gdt, sb, num),
        extents_now(s, sb, num) == extents_now(st, sb, num),
        forall|b: u64| #[trigger] node_block(s, sb, num, d, b) == node_block(st, sb, num, d, b),
        forall|b: u64| kept_apart(st, sb, num, b) ==> #[trigger] kept_apart(s, sb, num, b),
{
    lemma_slot_read(st, sb, num);
    let g = inode::group_of(sb, num);
    assert(st.gdt[g].inode_table == s.gdt[g].inode_table);
    lemma_readable(s.disk, st.disk, sb.block_size, table_block(st.gdt, sb, num));
    lemma_volume_kept(st, s, sb);
    lemma_extents(st, sb, num, d);
    assert(used(s, sb, table_block(st.gdt, sb, num)));
    let root = inode_now(st, sb, num).block_data;
    assert forall|b: u64| #[trigger]
        tree::within(st.disk, sb.block_size, root, d, b) implies block_device::block_at(
        s.disk,
        sb.block_size,
        b,
    ) == block_device::block_at(st.disk, sb.block_size, b) by {
        assert(node_block(st, sb, num, d, b));
    }
    tree::law_depends_on_nodes(
        st.disk,
        s.disk,
        sb.block_size,
        root,
        d,
        0,
        tree::LOGICAL_END as int,
        block_device::sectors(st.disk) as nat,
    );
    assert forall|b: u64| #[trigger] node_block(s, sb, num, d, b) == node_block(
        st,
        sb,
        num,
        d,
        b,
    ) by {
        assert(tree::within(s.disk, sb.block_size, root, d, b) == tree::within(
            st.disk,
            sb.block_size,
            root,
            d,
            b,
        ));
    }
    let v = extents_now(st, sb, num);
    assert forall|b: u64| kept_apart(st, sb, num, b) implies #[trigger] kept_apart(
        s,
        sb,
        num,
        b,
    ) by {
        assert(used(s, sb, b));
    }
    assert forall|l: u64| (#[trigger] extent::mapped(v, l)) is Some implies kept_apart(
        s,
        sb,
        num,
        extent::mapped(v, l)->Some_0,
    ) && !node_block(s, sb, num, d, extent::mapped(v, l)->Some_0) by {
        assert(kept_apart(s, sb, num, extent::mapped(v, l)->Some_0));
    }
}

/// A file stays sound and reads the same where the block of its inode and those
/// of its tree did not change.
pub proof fn lemma_file_kept(st: FsState, s: FsState, sb: Superblock, num: u32, d: nat)
    requires
        sound_file(st, sb, num, d),
        later(st, s, sb),
        block_device::block_at(s.disk, sb.block_size, table_block(st.gdt, sb, num))
            == block_device::block_at(st.disk, sb.block_size, table_block(st.gdt, sb, num)),
        agrees(s, sb.block_size, table_block(st.gdt, sb, num)),
        forall|b: u64| #[trigger]
            node_block(st, sb, num, d, b) ==> block_device::block_at(s.disk, sb.block_size, b)
                == block_device::block_at(st.disk, sb.block_size, b) && agrees(
                s,
                sb.block_size,
                b,
            ),
    ensures
        sound_file(s, sb, num, d),
        inode::inode_at(s.disk, sb, s.gdt, num) == inode::inode_at(st.disk, sb, st.gdt, num),
        table_block(s.gdt, sb, num) == table_block(st.gdt, sb, num),
        extents_now(s, sb, num) == extents_now(st, sb, num),
        forall|b: u64| #[trigger] node_block(s, sb, num, d, b) == node_block(st, sb, num, d, b),
{
    lemma_slot_kept(st, s, sb, num);
    lemma_file_stays(st, s, sb, num, d);
}

/// What writing a block through leaves alone: all other blocks, what is used,
/// and where the transaction agrees with the device.
pub proof fn lemma_stored(st: FsState, sb: Superblock, b: u64, data: Seq<u8>)
    requires
        sound_volume(st, sb),
        data.len() == sb.block_size,
        !is_group_block(st.gdt, sb, b),
        fs_state::store(st, sb.block_size, b, data).1 is Ok,
    ensures
        ({
            let s = fs_state::store(st, sb.block_size, b, data).0;
            &&& s.gdt == st.gdt
            &&& later(st, s, sb)
            &&& sound_volume(s, sb)
            &&& block_device::block_at(s.disk, sb.block_size, b) == Ok::<
                Seq<u8>,
                BlockDeviceError,
            >(data)
            &&& agrees(s, sb.block_size, b)
            &&& forall|c: u64| #![trigger block_device::block_at(s.disk, sb.block_size, c)]
                c != b ==> untouched(st, s, sb.block_size, c)
            &&& forall|c: u64| #[trigger]
                agrees(s, sb.block_size, c) == (c == b || agrees(st, sb.block_size, c))
        }),
{
    reveal(used);
    reveal(is_group_block);
    reveal(agrees);
    let bs = sb.block_size;
    let s = fs_state::store(st, bs, b, data).0;
    assert forall|c: u64| #![trigger block_device::block_at(s.disk, bs, c)]
        c != b implies untouched(st, s, bs, c) by {
        block_device::lemma_block_write_read(st.disk, bs, b, data, c);
        writer::lemma_pin(st.txn.blocks, b, data, c);
    }
    block_device::lemma_block_write_read(st.disk, bs, b, data, b);
    assert forall|c: u64| used(st, sb, c) implies #[trigger] used(s, sb, c) by {
        let g = block_alloc::group_of(sb, c);
        vstd::arithmetic::div_mod::lemma_div_pos_is_pos(
            c - sb.first_data_block,
            sb.blocks_per_group as int,
        );
        assert(!is_of_group(st.gdt, sb, g, b));
        assert(block_device::block_at(s.disk, bs, st.gdt[g].block_bitmap)
            == block_device::block_at(st.disk, bs, st.gdt[g].block_bitmap));
    }
    lemma_volume_kept(st, s, sb);
    assert forall|c: u64| #[trigger] agrees(s, bs, c) == (c == b || agrees(st, bs, c)) by {
        writer::lemma_pin(st.txn.blocks, b, data, c);
        if c != b {
            assert(block_device::block_at(s.disk, bs, c) == block_device::block_at(
                st.disk,
                bs,
                c,
            ));
        }
    }
}

/// What writing a group's counts leaves alone: all blocks but that of its descriptor,
/// and what is used. There the transaction agrees with the device.
pub proof fn lemma_tallied(
    st: FsState,
    sb: Superblock,
    gdt: Seq<GroupDesc>,
    g: int,
    dirs: int,
)
    requires
        sound_volume(st, sb),
        same_layout(st.gdt, gdt),
        0 <= g < gdt.len(),
        block_alloc::tallied(FsState { gdt, ..st }, sb, g, dirs).1 is Ok,
    ensures
        ({
            let s = block_alloc::tallied(FsState { gdt, ..st }, sb, g, dirs).0;
            let b = block_alloc::gdt_block(sb, g);
            &&& s.gdt == gdt
            &&& later(st, s, sb)
            &&& sound_volume(s, sb)
            &&& is_group_block(st.gdt, sb, b)
            &&& forall|c: u64| #[trigger] used(s, sb, c) == used(st, sb, c)
            &&& forall|c: u64| #![trigger block_device::block_at(s.disk, sb.block_size, c)]
                c != b ==> untouched(st, s, sb.block_size, c)
            &&& forall|c: u64| #[trigger]
                agrees(s, sb.block_size, c) == (c == b || agrees(st, sb.block_size, c))
        }),
{
    let bs = sb.block_size;
    let x = FsState { gdt, ..st };
    let s = block_alloc::tallied(x, sb, g, dirs).0;
    let b = block_alloc::gdt_block(sb, g);
    allocator::laws::lemma_tallied(x, sb, g, dirs);
    let data = block_device::block_at(s.disk, bs, b)->Ok_0;
    assert(is_group_block(st.gdt, sb, b)) by {
        reveal(is_group_block);
        assert(is_of_group(st.gdt, sb, g, b));
    }
    assert forall|c: u64| #![trigger block_device::block_at(s.disk, bs, c)]
        c != b implies untouched(st, s, bs, c) by {
        writer::lemma_pin(st.txn.blocks, b, data, c);
    }
    assert forall|c: u64| #[trigger] used(s, sb, c) == used(st, sb, c) by {
        reveal(used);
        let h = block_alloc::group_of(sb, c);
        if c >= sb.first_data_block {
            vstd::arithmetic::div_mod::lemma_div_pos_is_pos(
                c - sb.first_data_block,
                sb.blocks_per_group as int,
            );
        }
        if c >= sb.first_data_block && h < st.gdt.len() {
            assert(gdt[h].block_bitmap == st.gdt[h].block_bitmap);
            assert(block_alloc::gdt_block(sb, g) != st.gdt[h].block_bitmap);
        }
    }
    lemma_volume_kept(st, s, sb);
    assert forall|c: u64| #[trigger] agrees(s, bs, c) == (c == b || agrees(st, bs, c)) by {
        reveal(agrees);
        writer::lemma_pin(st.txn.blocks, b, data, c);
        if c != b {
            assert(block_device::block_at(s.disk, bs, c) == block_device::block_at(
                st.disk,
                bs,
                c,
            ));
        }
    }
}

/// What allocating blocks does: they were free, they are used now, no block but
/// a group's changes. An attempt that fails changes nothing.
pub proof fn lemma_allocated(st: FsState, sb: Superblock, count: u32, hint: u64)
    requires
        sound_volume(st, sb),
        count > 0,
    ensures
        ({
            let (s, r) = block_alloc::allocated(st, sb, count, hint);
            &&& r is Err ==> s == st
            &&& r is Ok ==> {
                let p = r->Ok_0;
                &&& later(st, s, sb)
                &&& sound_volume(s, sb)
                &&& p + count <= BLOCK_END
                &&& forall|b: u64|
                    p <= b < p + count ==> (#[trigger] used(s, sb, b)) && !used(st, sb, b)
                &&& forall|c: u64| #![trigger block_device::block_at(s.disk, sb.block_size, c)]
                    !is_group_block(st.gdt, sb, c) ==> untouched(st, s, sb.block_size, c)
                &&& forall|c: u64|
                    agrees(st, sb.block_size, c) ==> #[trigger] agrees(s, sb.block_size, c)
            }
        }),
{
    reveal(used);
    reveal(is_group_block);
    lemma_allocated_from(st, sb, count, hint, 0);
    let (s, r) = block_alloc::allocated(st, sb, count, hint);
    if r is Ok {
        let bs = sb.block_size;
        let (g, k) = allocator::laws::law_allocated(st, sb, count, hint);
        let n = sb.blocks_per_group as int;
        let p = r->Ok_0;
        let at = st.gdt[g].block_bitmap;
        let before = block_bitmap::loaded(st.disk, sb, st.gdt, g)->Ok_0;
        let after = block_bitmap::loaded(s.disk, sb, s.gdt, g)->Ok_0;
        block_device::lemma_block_at(st.disk, bs, at);
        assert(g * n + n <= st.gdt.len() * n) by (nonlinear_arith)
            requires
                g + 1 <= st.gdt.len(),
                n > 0,
        ;
        let gb = block_alloc::gdt_block(sb, g);
        let mid = FsState {
            disk: block_device::with_block(st.disk, bs, at, after),
            txn: st.txn,
            gdt: s.gdt,
        };
        allocator::laws::lemma_tallied(mid, sb, g, 0);
        assert(gb != at);
        assert forall|c: u64| #![trigger block_device::block_at(s.disk, bs, c)]
            c != at && c != gb implies block_device::block_at(s.disk, bs, c)
            == block_device::block_at(st.disk, bs, c) by {
            block_device::lemma_block_write_read(st.disk, bs, at, after, c);
        }
        block_device::lemma_block_write_read(st.disk, bs, at, after, at);
        block_device::lemma_block_at(s.disk, bs, at);
        assert forall|b: u64| used(st, sb, b) implies #[trigger] used(s, sb, b) by {
            let h = block_alloc::group_of(sb, b);
            let j = block_alloc::bit_of(sb, b);
            vstd::arithmetic::div_mod::lemma_div_pos_is_pos(b - sb.first_data_block, n);
            vstd::arithmetic::div_mod::lemma_mod_bound(b - sb.first_data_block, n);
            let x = st.gdt[h].block_bitmap;
            assert(s.gdt[h].block_bitmap == x);
            if x == at {
                assert(bits::bit(after, j) == (k <= j < k + count || bits::bit(before, j)));
            } else {
                assert(gb != st.gdt[h].block_bitmap);
                assert(block_device::block_at(s.disk, bs, x) == block_device::block_at(
                    st.disk,
                    bs,
                    x,
                ));
            }
        }
        assert forall|b: u64| p <= b < p + count implies (#[trigger] used(s, sb, b)) && !used(
            st,
            sb,
            b,
        ) by {
            let j = k + (b - p);
            vstd::arithmetic::div_mod::lemma_fundamental_div_mod_converse(
                b - sb.first_data_block,
                n,
                g,
                j,
            );
            assert(bits::bit(after, j) == (k <= j < k + count || bits::bit(before, j)));
            assert(!bits::bit(before, j));
        }
        lemma_volume_kept(st, s, sb);
    }
}

proof fn lemma_allocated_from(st: FsState, sb: Superblock, count: u32, hint: u64, i: int)
    requires
        sound_volume(st, sb),
        0 <= i,
    ensures
        ({
            let (s, r) = block_alloc::allocated_from(st, sb, count, hint, i);
            &&& r is Err ==> s == st
            &&& r is Ok ==> forall|c: u64|
                agrees(st, sb.block_size, c) ==> #[trigger] agrees(s, sb.block_size, c)
            &&& r is Ok ==> forall|c: u64|
                #![trigger block_device::block_at(s.disk, sb.block_size, c)]
                !is_group_block(st.gdt, sb, c) ==> untouched(st, s, sb.block_size, c)
        }),
    decreases st.gdt.len() - i,
{
    reveal(agrees);
    let n = st.gdt.len() as int;
    if i < n {
        let bs = sb.block_size;
        let g = block_alloc::nth_group(hint as int / sb.blocks_per_group as int, i, n);
        vstd::arithmetic::div_mod::lemma_mod_bound(
            (hint as int / sb.blocks_per_group as int) % n + i,
            n,
        );
        lemma_allocated_from(st, sb, count, hint, i + 1);
        let at = st.gdt[g].block_bitmap;
        assert(block_device::block_at(st.disk, bs, at) is Ok);
        let bm = block_device::block_at(st.disk, bs, at)->Ok_0;
        block_device::lemma_block_at(st.disk, bs, at);
        if st.gdt[g].free_blocks_count >= count {
            match bits::first_run(bm, count as int, sb.blocks_per_group as int) {
                None => {},
                Some(k) => {
                    let data = bits::with_run(bm, k as int, count as int);
                    allocator::laws::lemma_first_run_is(
                        bm,
                        count as int,
                        sb.blocks_per_group as int,
                    );
                    bits::lemma_run(bm, k as int, count as int, 0);
                    let s1 = fs_state::store(st, bs, at, data).0;
                    let b = block_alloc::gdt_block(sb, g);
                    lemma_readable(st.disk, s1.disk, bs, b);
                    let s = block_alloc::taken(st, sb, g, bm, k, count).0;
                    let e = block_device::block_at(s1.disk, bs, b)->Ok_0;
                    block_device::lemma_block_at(s1.disk, bs, b);
                    let gdt = crate::group_desc::with_free_blocks(s1.gdt, g, -(count as int));
                    let d = crate::group_desc::described(e, sb, g, gdt[g], 0);
                    crate::group_desc::lemma_described_len(e, sb, g, gdt[g], 0);
                    allocator::laws::lemma_tallied(FsState { gdt, ..s1 }, sb, g, 0);
                    assert forall|c: u64| agrees(st, bs, c) implies #[trigger] agrees(s, bs, c) by {
                        block_device::lemma_block_write_read(st.disk, bs, at, data, c);
                        block_device::lemma_block_write_read(s1.disk, bs, b, d, c);
                        writer::lemma_pin(st.txn.blocks, at, data, c);
                        writer::lemma_pin(s1.txn.blocks, b, d, c);
                    }
                    assert forall|c: u64| #![trigger block_device::block_at(s.disk, bs, c)]
                        !is_group_block(st.gdt, sb, c) implies untouched(st, s, bs, c) by {
                        reveal(is_group_block);
                        assert(!is_of_group(st.gdt, sb, g, c));
                        block_device::lemma_block_write_read(st.disk, bs, at, data, c);
                        writer::lemma_pin(st.txn.blocks, at, data, c);
                        writer::lemma_pin(s1.txn.blocks, b, d, c);
                    }
                },
            }
        }
    }
}

/// Zeroing blocks in a row zeroes those and no others.
pub proof fn lemma_zeroed(disk: Seq<u8>, bs: u32, p: u64, n: int, c: u64)
    requires
        block_device::sectored(bs),
        disk.len() % 512 == 0,
        n > 0,
        block_device::write_result(
            disk,
            p * (bs as int / 512),
            bytes::zeros(n * bs),
        ) is Ok,
    ensures
        ({
            let d = block_device::written(disk, p * (bs as int / 512), bytes::zeros(n * bs));
            &&& d.len() == disk.len()
            &&& block_device::block_at(d, bs, c) == (if p <= c < p + n {
                Ok(bytes::zeros(bs as int))
            } else {
                block_device::block_at(disk, bs, c)
            })
        }),
{
    let z = bytes::zeros(n * bs);
    let d = block_device::written(disk, p * (bs as int / 512), z);
    block_device::lemma_block_at(disk, bs, p);
    block_device::lemma_block_at(disk, bs, c);
    block_device::lemma_block_at(d, bs, c);
    assert(n * bs >= bs) by (nonlinear_arith)
        requires
            n >= 1,
    ;
    if c < p {
        assert(c * bs + bs <= p * bs) by (nonlinear_arith)
            requires
                c < p,
        ;
    } else if c < p + n {
        assert(p * bs <= c * bs && c * bs + bs <= p * bs + n * bs) by (nonlinear_arith)
            requires
                p <= c < p + n,
        ;
        assert(d.subrange(c * bs, c * bs + bs) =~= bytes::zeros(bs as int));
    } else {
        assert(p * bs + n * bs <= c * bs) by (nonlinear_arith)
            requires
                p + n <= c,
        ;
    }
    if !(p <= c < p + n) && block_device::block_at(disk, bs, c) is Ok {
        assert(d.subrange(c * bs, c * bs + bs) =~= disk.subrange(c * bs, c * bs + bs));
    }
}

/// What writing the record of an inode through does: the inode reads as
/// written, and no other block changes.
#[verifier::rlimit(100)]
pub proof fn lemma_flushed(st: FsState, sb: Superblock, num: u32, rec: Seq<u8>)
    requires
        sound_volume(st, sb),
        sound_slot(st, sb, num),
        rec.len() == 128,
        bytes::le32(rec, 20) == 0,
        inode::inode_of(rec).uses_extents(),
        extent_write::flushed(st, sb, num, rec).1 is Ok,
    ensures
        ({
            let s = extent_write::flushed(st, sb, num, rec).0;
            let t = table_block(st.gdt, sb, num);
            &&& s.gdt == st.gdt
            &&& later(st, s, sb)
            &&& sound_volume(s, sb)
            &&& sound_slot(s, sb, num)
            &&& inode::inode_at(s.disk, sb, s.gdt, num) == Ok::<InodeView, InodeError>(
                inode::inode_of(rec),
            )
            &&& record_changed(st, s, sb, num)
            &&& forall|c: u64| #![trigger block_device::block_at(s.disk, sb.block_size, c)]
                c != t ==> untouched(st, s, sb.block_size, c)
            &&& forall|c: u64| #[trigger]
                agrees(s, sb.block_size, c) == (c == t || agrees(st, sb.block_size, c))
        }),
{
    reveal(agrees);
    lemma_slot_read(st, sb, num);
    let b = table_block(st.gdt, sb, num);
    let o = inode::slot_offset(sb, num);
    let t = block_device::block_at(st.disk, sb.block_size, b)->Ok_0;
    let t2 = bytes::put(t, o, rec);
    lemma_stored(st, sb, b, t2);
    let s = extent_write::flushed(st, sb, num, rec).0;
    lemma_record_in_block(s.disk, sb, s.gdt, num);
    assert(t2.subrange(o, o + 128) =~= rec);
    assert(used(s, sb, b));
}

/// What a transaction sees of a sound file's tree is what is on the device.
pub proof fn lemma_seen_block(
    st: FsState,
    sb: Superblock,
    num: u32,
    d: nat,
    log: Seq<u64>,
    disk: Seq<u8>,
    l: u64,
)
    requires
        sound_file(st, sb, num, d),
        sees(st, sb.block_size, log, disk),
        forall|b: u64| #[trigger] node_block(st, sb, num, d, b) ==> !log.contains(b),
    ensures
        extent::file_block(disk, sb, true, inode_now(st, sb, num).block_data, l) == Ok::<
            Option<u64>,
            ExtentError,
        >(extent::mapped(extents_now(st, sb, num), l)),
        extent::file_leaves(disk, sb, true, inode_now(st, sb, num).block_data) == Ok::<
            Seq<ExtentLeaf>,
            ExtentError,
        >(extents_now(st, sb, num)),
{
    let root = inode_now(st, sb, num).block_data;
    assert forall|b: u64| #[trigger]
        tree::within(st.disk, sb.block_size, root, d, b) implies block_device::block_at(
        disk,
        sb.block_size,
        b,
    ) == block_device::block_at(st.disk, sb.block_size, b) by {
        reveal(agrees);
        assert(node_block(st, sb, num, d, b));
    }
    lemma_tree_elsewhere(st, sb, num, d, disk, l);
}

/// A tree whose nodes are the same on another disk is the same there.
pub proof fn lemma_tree_elsewhere(
    st: FsState,
    sb: Superblock,
    num: u32,
    d: nat,
    disk: Seq<u8>,
    l: u64,
)
    requires
        sound_file(st, sb, num, d),
        disk.len() == st.disk.len(),
        forall|b: u64| #[trigger]
            tree::within(
                st.disk,
                sb.block_size,
                inode_now(st, sb, num).block_data,
                d,
                b,
            ) ==> block_device::block_at(disk, sb.block_size, b) == block_device::block_at(
                st.disk,
                sb.block_size,
                b,
            ),
    ensures
        extent::file_block(disk, sb, true, inode_now(st, sb, num).block_data, l) == Ok::<
            Option<u64>,
            ExtentError,
        >(extent::mapped(extents_now(st, sb, num), l)),
        extent::file_leaves(disk, sb, true, inode_now(st, sb, num).block_data) == Ok::<
            Seq<ExtentLeaf>,
            ExtentError,
        >(extents_now(st, sb, num)),
{
    let root = inode_now(st, sb, num).block_data;
    let hops = block_device::sectors(st.disk) as nat;
    let end = tree::LOGICAL_END as int;
    lemma_extents(st, sb, num, d);
    tree::law_depends_on_nodes(st.disk, disk, sb.block_size, root, d, 0, end, hops);
    tree::law_found_as_listed(disk, sb.block_size, root, d, 0, end, hops, l);
}

/// Whether the record of an inode can be read, and the transaction sees in its
/// block what is on the device.
pub open spec fn readable_slot(st: FsState, sb: Superblock, num: u32) -> bool {
    let t = table_block(st.gdt, sb, num);
    &&& sb.wf()
    &&& inode::inode_at(st.disk, sb, st.gdt, num) is Ok
    &&& st.gdt[inode::group_of(sb, num)].inode_table + inode::index_of(sb, num)
        / inode::inodes_per_block(sb) <= u64::MAX
    &&& block_device::block_at(st.disk, sb.block_size, t) is Ok
    &&& agrees(st, sb.block_size, t)
}

/// Once the transaction's blocks are in place, an inode reads as its record does
/// in the transaction.
pub proof fn lemma_inode_seen(st: FsState, sb: Superblock, num: u32, log: Seq<u64>, disk: Seq<u8>)
    requires
        sb.wf(),
        inode::inode_in_range(sb, num),
        inode::group_of(sb, num) < st.gdt.len(),
        st.gdt[inode::group_of(sb, num)].inode_table + inode::index_of(sb, num)
            / inode::inodes_per_block(sb) <= u64::MAX,
        inode::slot_byte(sb, st.gdt[inode::group_of(sb, num)], num) <= u64::MAX,
        !log.contains(table_block(st.gdt, sb, num)),
        sees(st, sb.block_size, log, disk),
        fs_state::fetched(
            st.disk,
            st.txn.blocks,
            sb.block_size,
            table_block(st.gdt, sb, num),
        ) is Ok,
    ensures
        ({
            let o = inode::slot_offset(sb, num);
            let t = fs_state::fetched(
                st.disk,
                st.txn.blocks,
                sb.block_size,
                table_block(st.gdt, sb, num),
            )->Ok_0;
            &&& inode::inode_at(disk, sb, st.gdt, num) == inode::live_inode(
                t.subrange(o, o + 128),
                num,
            )
            &&& 0 <= o
            &&& o + 128 <= t.len()
        }),
{
    vstd::arithmetic::div_mod::lemma_div_pos_is_pos(num - 1, sb.inodes_per_group as int);
    assert(block_device::block_at(disk, sb.block_size, table_block(st.gdt, sb, num)) is Ok);
    lemma_record_in_block(disk, sb, st.gdt, num);
}

/// Once the transaction's blocks are in place, an updated inode reads as
/// updated, and every other block as the transaction saw it before the update.
#[verifier::rlimit(100)]
pub proof fn lemma_update_shows(
    st: FsState,
    sb: Superblock,
    gdt: Seq<GroupDesc>,
    num: u32,
    u: InodeUpdate,
    log: Seq<u64>,
    disk: Seq<u8>,
)
    requires
        readable_slot(st, sb, num),
        same_layout(gdt, st.gdt),
        !log.contains(table_block(st.gdt, sb, num)),
        inode_write::updated(st.disk, sb, gdt, st.txn, num, u).1 is Ok,
        sees(
            (FsState { txn: inode_write::updated(st.disk, sb, gdt, st.txn, num, u).0, ..st }),
            sb.block_size,
            log,
            disk,
        ),
    ensures
        inode::inode_at(disk, sb, gdt, num) == Ok::<InodeView, InodeError>(
            inode_write::updated_inode(inode_now(st, sb, num), u),
        ),
        record_changed_on(st, disk, sb, num),
        forall|b: u64| #![trigger block_device::block_at(disk, sb.block_size, b)]
            b != table_block(st.gdt, sb, num) && !log.contains(b) ==> block_device::block_at(
                disk,
                sb.block_size,
                b,
            ) == fs_state::fetched(st.disk, st.txn.blocks, sb.block_size, b),
{
    reveal(agrees);
    let bs = sb.block_size;
    vstd::arithmetic::div_mod::lemma_div_pos_is_pos(num - 1, sb.inodes_per_group as int);
    lemma_record_in_block(st.disk, sb, st.gdt, num);
    let g = inode::group_of(sb, num);
    assert(gdt[g].inode_table == st.gdt[g].inode_table);
    let t = table_block(st.gdt, sb, num);
    let o = inode::slot_offset(sb, num);
    let x = block_device::block_at(st.disk, bs, t)->Ok_0;
    let rec = x.subrange(o, o + 128);
    let y = bytes::put(x, o, inode_write::updated_record(rec, u));
    inode_write::lemma_updated_record(rec, u);
    writer::lemma_pin(st.txn.blocks, t, y, t);
    assert(y.subrange(o, o + 128) =~= inode_write::updated_record(rec, u));
    lemma_record_in_block(disk, sb, gdt, num);
    assert forall|b: u64| #![trigger block_device::block_at(disk, bs, b)]
        b != t && !log.contains(b) implies block_device::block_at(disk, bs, b)
        == fs_state::fetched(st.disk, st.txn.blocks, bs, b) by {
        writer::lemma_pin(st.txn.blocks, t, y, b);
    }
}

/// Once the transaction's blocks are in place, the tree of an updated inode is
/// the same.
pub proof fn lemma_updated_block(
    st: FsState,
    sb: Superblock,
    gdt: Seq<GroupDesc>,
    num: u32,
    d: nat,
    u: InodeUpdate,
    log: Seq<u64>,
    disk: Seq<u8>,
    l: u64,
)
    requires
        sound_file(st, sb, num, d),
        same_layout(gdt, st.gdt),
        !log.contains(table_block(st.gdt, sb, num)),
        forall|b: u64| #[trigger] node_block(st, sb, num, d, b) ==> !log.contains(b),
        inode_write::updated(st.disk, sb, gdt, st.txn, num, u).1 is Ok,
        sees(
            (FsState { txn: inode_write::updated(st.disk, sb, gdt, st.txn, num, u).0, ..st }),
            sb.block_size,
            log,
            disk,
        ),
    ensures
        extent::file_block(disk, sb, true, inode_now(st, sb, num).block_data, l) == Ok::<
            Option<u64>,
            ExtentError,
        >(extent::mapped(extents_now(st, sb, num), l)),
        extent::file_leaves(disk, sb, true, inode_now(st, sb, num).block_data) == Ok::<
            Seq<ExtentLeaf>,
            ExtentError,
        >(extents_now(st, sb, num)),
{
    lemma_update_shows(st, sb, gdt, num, u, log, disk);
    let root = inode_now(st, sb, num).block_data;
    assert forall|b: u64| #[trigger]
        tree::within(st.disk, sb.block_size, root, d, b) implies block_device::block_at(
        disk,
        sb.block_size,
        b,
    ) == block_device::block_at(st.disk, sb.block_size, b) by {
        reveal(agrees);
        assert(node_block(st, sb, num, d, b));
    }
    lemma_tree_elsewhere(st, sb, num, d, disk, l);
}

/// Once the transaction's blocks are in place, an inode whose block was not
/// changed by the last of them reads the same.
pub proof fn lemma_slot_seen(
    st: FsState,
    sb: Superblock,
    num: u32,
    p: u64,
    data: Seq<u8>,
    log: Seq<u64>,
    disk: Seq<u8>,
)
    requires
        sb.wf(),
        sound_slot(st, sb, num),
        p != table_block(st.gdt, sb, num),
        !log.contains(table_block(st.gdt, sb, num)),
        sees(fs_state::pin(st, p, data), sb.block_size, log, disk),
    ensures
        inode::inode_at(disk, sb, st.gdt, num) == inode::inode_at(st.disk, sb, st.gdt, num),
{
    reveal(agrees);
    lemma_slot_read(st, sb, num);
    writer::lemma_pin(st.txn.blocks, p, data, table_block(st.gdt, sb, num));
    lemma_record_in_block(disk, sb, st.gdt, num);
}

} // verus!
