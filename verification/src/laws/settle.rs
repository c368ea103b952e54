//! A block that a transaction pinned, put in place ahead of the commit.
use vstd::prelude::*;
use super::mkdir;
use super::names;
use super::renames;
use super::volume;
use crate::allocator::bits;
use crate::allocator::block_alloc;
use crate::allocator::block_bitmap;
use crate::block_device;
use crate::bytes;
use crate::dir_write;
use crate::extent_write;
use crate::fs_state;
use crate::fs_state::FsState;
use crate::group_desc::GroupDesc;
use crate::inode;
use crate::inode::{InodeError, InodeView};
use crate::inode_write;
use crate::inode_write::InodeUpdate;
use crate::journal::writer;
use crate::superblock::Superblock;

verus! {

/// A state with block `t` on the device as the transaction sees it.
pub open spec fn placed(st: FsState, sb: Superblock, t: u64) -> FsState {
    FsState {
        disk: block_device::with_block(
            st.disk,
            sb.block_size,
            t,
            fs_state::fetched(st.disk, st.txn.blocks, sb.block_size, t)->Ok_0,
        ),
        ..st
    }
}

/// Where a block lies.
proof fn lemma_span(bs: u32, a: u64)
    requires
        block_device::sectored(bs),
    ensures
        512 * (a * (bs as int / 512)) == a * bs,
{
    assert(bs == 512 * (bs as int / 512));
    assert(512 * (a * (bs as int / 512)) == a * (512 * (bs as int / 512))) by (nonlinear_arith);
}

/// Two blocks can be written in either order.
proof fn lemma_swap(disk: Seq<u8>, bs: u32, a: u64, x: Seq<u8>, b: u64, y: Seq<u8>)
    requires
        block_device::sectored(bs),
        a != b,
        x.len() == bs,
        y.len() == bs,
    ensures
        block_device::with_block(block_device::with_block(disk, bs, a, x), bs, b, y)
            == block_device::with_block(block_device::with_block(disk, bs, b, y), bs, a, x),
{
    lemma_span(bs, a);
    lemma_span(bs, b);
    assert(a * bs + bs <= b * bs || b * bs + bs <= a * bs) by (nonlinear_arith)
        requires
            a != b,
    ;
    assert(block_device::with_block(block_device::with_block(disk, bs, a, x), bs, b, y)
        =~= block_device::with_block(block_device::with_block(disk, bs, b, y), bs, a, x));
}

/// What was written last stays.
proof fn lemma_twice(disk: Seq<u8>, bs: u32, a: u64, x: Seq<u8>, y: Seq<u8>)
    requires
        block_device::sectored(bs),
        x.len() == bs,
        y.len() == bs,
    ensures
        block_device::with_block(block_device::with_block(disk, bs, a, x), bs, a, y)
            == block_device::with_block(disk, bs, a, y),
{
    lemma_span(bs, a);
    assert(block_device::with_block(block_device::with_block(disk, bs, a, x), bs, a, y)
        =~= block_device::with_block(disk, bs, a, y));
}

/// Taking blocks does not depend on a block that is no group's.
#[verifier::rlimit(100)]
proof fn lemma_taken_beside(
    st: FsState,
    sb: Superblock,
    count: u32,
    hint: u64,
    i: int,
    t: u64,
    x: Seq<u8>,
)
    requires
        sb.wf(),
        st.disk.len() % 512 == 0,
        0 <= i,
        !volume::is_group_block(st.gdt, sb, t),
        x.len() == sb.block_size,
        block_device::block_at(st.disk, sb.block_size, t) is Ok,
        block_alloc::allocated_from(st, sb, count, hint, i).1 is Ok,
    ensures
        ({
            let d = block_device::with_block(st.disk, sb.block_size, t, x);
            let (s, r) = block_alloc::allocated_from(st, sb, count, hint, i);
            block_alloc::allocated_from((FsState { disk: d, ..st }), sb, count, hint, i) == (
                (FsState {
                    disk: block_device::with_block(s.disk, sb.block_size, t, x),
                    ..s
                }),
                r,
            )
        }),
    decreases st.gdt.len() - i,
{
    let bs = sb.block_size;
    let d = block_device::with_block(st.disk, bs, t, x);
    let sd = FsState { disk: d, ..st };
    let n = st.gdt.len() as int;
    let g = block_alloc::nth_group(hint as int / sb.blocks_per_group as int, i, n);
    vstd::arithmetic::div_mod::lemma_mod_bound(
        (hint as int / sb.blocks_per_group as int) % n + i,
        n,
    );
    block_device::lemma_block_at(st.disk, bs, t);
    if st.gdt[g].free_blocks_count < count {
        lemma_taken_beside(st, sb, count, hint, i + 1, t, x);
    } else {
        let m = st.gdt[g].block_bitmap;
        let gb = block_alloc::gdt_block(sb, g);
        assert(m != t && gb != t) by {
            reveal(volume::is_group_block);
            if m == t || gb == t {
                assert(volume::is_of_group(st.gdt, sb, g, t));
            }
        }
        block_device::lemma_block_write_read(st.disk, bs, t, x, m);
        block_device::lemma_block_write_read(st.disk, bs, t, x, gb);
        block_device::lemma_block_at(st.disk, bs, m);
        let bm = block_bitmap::loaded(st.disk, sb, st.gdt, g)->Ok_0;
        match bits::first_run(bm, count as int, sb.blocks_per_group as int) {
            None => lemma_taken_beside(st, sb, count, hint, i + 1, t, x),
            Some(k) => {
                let y = bits::with_run(bm, k as int, count as int);
                bits::lemma_run(bm, k as int, count as int, 0);
                lemma_swap(st.disk, bs, t, x, m, y);
                let mid = block_device::with_block(st.disk, bs, m, y);
                block_device::lemma_block_write_read(st.disk, bs, m, y, gb);
                block_device::lemma_block_write_read(d, bs, m, y, gb);
                let e = block_device::block_at(mid, bs, gb)->Ok_0;
                let gdt = crate::group_desc::with_free_blocks(st.gdt, g, -(count as int));
                let w = crate::group_desc::described(e, sb, g, gdt[g], 0);
                crate::group_desc::lemma_described_len(e, sb, g, gdt[g], 0);
                block_device::lemma_block_at(mid, bs, gb);
                lemma_swap(mid, bs, t, x, gb, w);
            },
        }
    }
}

/// Whether an inode is that of a new directory, both on the device and as the
/// transaction sees it.
pub open spec fn fresh_in_both(st: FsState, sb: Superblock, num: u32, now: u32) -> bool {
    let t = volume::table_block(st.gdt, sb, num);
    let o = inode::slot_offset(sb, num);
    let f = fs_state::fetched(st.disk, st.txn.blocks, sb.block_size, t);
    let b = block_device::block_at(st.disk, sb.block_size, t);
    &&& volume::sound_volume(st, sb)
    &&& st.disk.len() % 512 == 0
    &&& volume::used(st, sb, t)
    &&& !volume::is_group_block(st.gdt, sb, t)
    &&& inode::inode_at(st.disk, sb, st.gdt, num) == Ok::<InodeView, InodeError>(
        mkdir::new_dir(now),
    )
    &&& f is Ok
    &&& b is Ok
    &&& f->Ok_0.len() == sb.block_size
    &&& f->Ok_0.subrange(o, o + 128) == b->Ok_0.subrange(o, o + 128)
}

/// The first entry of a new directory goes in all the same where the block of its
/// record is in place already.
#[verifier::rlimit(100)]
pub proof fn lemma_placed_first(
    st: FsState,
    sb: Superblock,
    num: u32,
    now: u32,
    name: Seq<char>,
    target: u32,
    file_type: u8,
)
    requires
        fresh_in_both(st, sb, num, now),
        dir_write::added(st, sb, st.gdt, num, name, target, file_type).1 is Ok,
    ensures
        dir_write::added(
            placed(st, sb, volume::table_block(st.gdt, sb, num)),
            sb,
            st.gdt,
            num,
            name,
            target,
            file_type,
        ) == dir_write::added(st, sb, st.gdt, num, name, target, file_type),
{
    let bs = sb.block_size;
    let t = volume::table_block(st.gdt, sb, num);
    let o = inode::slot_offset(sb, num);
    let x = fs_state::fetched(st.disk, st.txn.blocks, bs, t)->Ok_0;
    let sd = placed(st, sb, t);
    let i = mkdir::new_dir(now);
    mkdir::lemma_new_dir(now);
    names::lemma_slot_bounds(st.disk, sb, st.gdt, num);
    volume::lemma_record_in_block(st.disk, sb, st.gdt, num);
    block_device::lemma_block_at(st.disk, bs, t);
    block_device::lemma_block_write_read(st.disk, bs, t, x, t);
    volume::lemma_record_in_block(sd.disk, sb, st.gdt, num);
    assert(inode::inode_at(sd.disk, sb, st.gdt, num) == inode::inode_at(st.disk, sb, st.gdt, num));
    mkdir::lemma_no_blocks(sb, i);
    let b = dir_write::name_bytes(name);
    assert(dir_write::added(st, sb, st.gdt, num, name, target, file_type) == dir_write::extended(
        st,
        sb,
        st.gdt,
        num,
        i,
        b,
        target,
        file_type,
    ));
    assert(dir_write::added(sd, sb, st.gdt, num, name, target, file_type) == dir_write::extended(
        sd,
        sb,
        st.gdt,
        num,
        i,
        b,
        target,
        file_type,
    ));
    let (a1, r1) = block_alloc::allocated(st, sb, 1, 0);
    let fresh = r1->Ok_0;
    volume::lemma_allocated(st, sb, 1, 0);
    lemma_taken_beside(st, sb, 1, 0, 0, t, x);
    assert(fresh != t) by {
        assert(volume::used(a1, sb, fresh) && !volume::used(st, sb, fresh));
    }
    assert(volume::untouched(st, a1, bs, t)) by {
        assert(block_device::block_at(a1.disk, bs, t) == block_device::block_at(a1.disk, bs, t));
    }
    let data = dir_write::with_dirent(
        bytes::zeros(bs as int),
        0,
        target,
        b,
        file_type,
        dir_write::coded_len(bs),
    );
    let a2 = fs_state::pin(a1, fresh, data);
    let d2 = FsState { disk: block_device::with_block(a1.disk, bs, t, x), ..a2 };
    assert(d2 == fs_state::pin(block_alloc::allocated(sd, sb, 1, 0).0, fresh, data));
    lemma_same_append(a2, d2, st.gdt, sb, num, now, fresh, x, data, a1);
}

/// Appending the first block of a new directory overwrites the block of its
/// record, whatever that held on the device.
#[verifier::rlimit(100)]
proof fn lemma_same_append(
    a: FsState,
    d: FsState,
    gdt: Seq<GroupDesc>,
    sb: Superblock,
    num: u32,
    now: u32,
    fresh: u64,
    x: Seq<u8>,
    data: Seq<u8>,
    was: FsState,
)
    requires
        sb.wf(),
        was.disk.len() % 512 == 0,
        volume::same_layout(gdt, was.gdt),
        inode::inode_in_range(sb, num),
        0 <= inode::group_of(sb, num) < gdt.len(),
        gdt[inode::group_of(sb, num)].inode_table + inode::index_of(sb, num)
            / inode::inodes_per_block(sb) <= u64::MAX,
        inode::slot_byte(sb, gdt[inode::group_of(sb, num)], num) <= u64::MAX,
        a == fs_state::pin(was, fresh, data),
        d == (FsState {
            disk: block_device::with_block(
                was.disk,
                sb.block_size,
                volume::table_block(gdt, sb, num),
                x,
            ),
            ..a
        }),
        ({
            let t = volume::table_block(gdt, sb, num);
            let o = inode::slot_offset(sb, num);
            let b = block_device::block_at(was.disk, sb.block_size, t);
            &&& fresh != t
            &&& fs_state::fetched(was.disk, was.txn.blocks, sb.block_size, t) == Ok::<
                Seq<u8>,
                block_device::BlockDeviceError,
            >(x)
            &&& x.len() == sb.block_size
            &&& b is Ok
            &&& x.subrange(o, o + 128) == b->Ok_0.subrange(o, o + 128)
            &&& inode::live_inode(x.subrange(o, o + 128), num) == Ok::<InodeView, InodeError>(
                mkdir::new_dir(now),
            )
        }),
    ensures
        extent_write::appended(a, sb, num, fresh, 1) == extent_write::appended(
            d,
            sb,
            num,
            fresh,
            1,
        ),
{
    let bs = sb.block_size;
    let t = volume::table_block(gdt, sb, num);
    let o = inode::slot_offset(sb, num);
    let g = inode::group_of(sb, num);
    assert(gdt[g].inode_table == was.gdt[g].inode_table);
    mkdir::lemma_new_dir(now);
    block_device::lemma_block_at(was.disk, bs, t);
    block_device::lemma_block_write_read(was.disk, bs, t, x, t);
    writer::lemma_pin(was.txn.blocks, fresh, data, t);
    volume::lemma_record_in_block(a.disk, sb, a.gdt, num);
    volume::lemma_record_in_block(d.disk, sb, d.gdt, num);
    let rec = x.subrange(o, o + 128);
    assert(extent_write::opened(a, sb, num) == Ok::<Seq<u8>, extent_write::ExtentWriteError>(rec));
    assert(extent_write::opened(d, sb, num) == Ok::<Seq<u8>, extent_write::ExtentWriteError>(rec));
    let root = extent_write::root_of(rec);
    assert(root == mkdir::new_dir(now).block_data);
    assert forall|r: Seq<u8>| #[trigger] extent_write::flushed(a, sb, num, r)
        == extent_write::flushed(d, sb, num, r) by {
        let y = bytes::put(x, o, r);
        assert(y.len() == bs);
        lemma_twice(was.disk, bs, t, x, y);
    }
    assert(extent_write::appended_flat(a, sb, num, rec, fresh, 1) == extent_write::appended_flat(
        d,
        sb,
        num,
        rec,
        fresh,
        1,
    ));
}

/// Whether all that is pinned in `a` is pinned in `b`, if perhaps with other data.
pub open spec fn still_pinned(a: FsState, b: FsState) -> bool {
    &&& a.txn.blocks.len() <= b.txn.blocks.len()
    &&& forall|i: int|
        0 <= i < a.txn.blocks.len() ==> (#[trigger] b.txn.blocks[i]).0 == a.txn.blocks[i].0
}

/// What is pinned stays so when blocks are taken.
proof fn lemma_taken_pins(st: FsState, sb: Superblock, count: u32, hint: u64, i: int)
    requires
        block_alloc::allocated_from(st, sb, count, hint, i).1 is Ok,
    ensures
        still_pinned(st, block_alloc::allocated_from(st, sb, count, hint, i).0),
    decreases st.gdt.len() - i,
{
    let n = st.gdt.len() as int;
    let g = block_alloc::nth_group(hint as int / sb.blocks_per_group as int, i, n);
    if st.gdt[g].free_blocks_count < count {
        lemma_taken_pins(st, sb, count, hint, i + 1);
    } else {
        let bm = block_bitmap::loaded(st.disk, sb, st.gdt, g)->Ok_0;
        match bits::first_run(bm, count as int, sb.blocks_per_group as int) {
            None => lemma_taken_pins(st, sb, count, hint, i + 1),
            Some(k) => {
                let y = bits::with_run(bm, k as int, count as int);
                let m = st.gdt[g].block_bitmap;
                let s1 = fs_state::store(st, sb.block_size, m, y).0;
                renames::lemma_still_pinned(st.txn.blocks, m, y);
                let gb = block_alloc::gdt_block(sb, g);
                let d = block_device::block_at(s1.disk, sb.block_size, gb)->Ok_0;
                let gdt = crate::group_desc::with_free_blocks(s1.gdt, g, -(count as int));
                renames::lemma_still_pinned(
                    s1.txn.blocks,
                    gb,
                    crate::group_desc::described(d, sb, g, gdt[g], 0),
                );
            },
        }
    }
}

/// What is pinned stays so when a new directory gets its first entry.
pub proof fn lemma_first_pins(
    st: FsState,
    sb: Superblock,
    num: u32,
    now: u32,
    name: Seq<char>,
    target: u32,
    file_type: u8,
)
    requires
        fresh_in_both(st, sb, num, now),
        dir_write::added(st, sb, st.gdt, num, name, target, file_type).1 is Ok,
    ensures
        still_pinned(st, dir_write::added(st, sb, st.gdt, num, name, target, file_type).0),
{
    let bs = sb.block_size;
    let t = volume::table_block(st.gdt, sb, num);
    let o = inode::slot_offset(sb, num);
    let i = mkdir::new_dir(now);
    let b = dir_write::name_bytes(name);
    mkdir::lemma_new_dir(now);
    names::lemma_slot_bounds(st.disk, sb, st.gdt, num);
    volume::lemma_record_in_block(st.disk, sb, st.gdt, num);
    mkdir::lemma_no_blocks(sb, i);
    assert(dir_write::added(st, sb, st.gdt, num, name, target, file_type) == dir_write::extended(
        st,
        sb,
        st.gdt,
        num,
        i,
        b,
        target,
        file_type,
    ));
    let (s1, r1) = block_alloc::allocated(st, sb, 1, 0);
    let fresh = r1->Ok_0;
    assert(r1 is Ok);
    volume::lemma_allocated(st, sb, 1, 0);
    assert(fresh != t) by {
        assert(volume::used(s1, sb, fresh));
        assert(!volume::used(st, sb, fresh));
    }
    lemma_taken_pins(st, sb, 1, 0, 0);
    assert(volume::untouched(st, s1, bs, t)) by {
        assert(block_device::block_at(s1.disk, bs, t) == block_device::block_at(s1.disk, bs, t));
    }
    let data = dir_write::with_dirent(
        bytes::zeros(bs as int),
        0,
        target,
        b,
        file_type,
        dir_write::coded_len(bs),
    );
    let s2 = fs_state::pin(s1, fresh, data);
    renames::lemma_still_pinned(s1.txn.blocks, fresh, data);
    writer::lemma_pin(s1.txn.blocks, fresh, data, t);
    let g = inode::group_of(sb, num);
    assert(st.gdt[g].inode_table == s1.gdt[g].inode_table);
    volume::lemma_record_in_block(s2.disk, sb, s2.gdt, num);
    let x = fs_state::fetched(st.disk, st.txn.blocks, bs, t)->Ok_0;
    let rec = x.subrange(o, o + 128);
    assert(extent_write::opened(s2, sb, num) == Ok::<Seq<u8>, extent_write::ExtentWriteError>(rec));
    assert(extent_write::root_of(rec) == i.block_data);
    let s3 = extent_write::appended(s2, sb, num, fresh, 1).0;
    assert forall|r: Seq<u8>| #[trigger] still_pinned(
        s2,
        extent_write::flushed(s2, sb, num, r).0,
    ) by {
        renames::lemma_still_pinned(s2.txn.blocks, t, bytes::put(x, o, r));
    }
    assert(still_pinned(s2, s3));
    let y = fs_state::fetched(s3.disk, s3.txn.blocks, bs, t)->Ok_0;
    let u = InodeUpdate {
        size: Some((i.size + bs) as u64),
        ..inode_write::no_update()
    };
    renames::lemma_still_pinned(
        s3.txn.blocks,
        t,
        bytes::put(
            y,
            o,
            inode_write::updated_record(y.subrange(o, o + 128), u),
        ),
    );
}

} // verus!
