//! What deleting a name promises of the file that it is a name of.
use vstd::prelude::*;
use super::append;
use super::data;
use super::dirs;
use super::names;
use super::others;
use super::pins;
use super::requests;
use super::success;
use super::tree;
use super::trim;
use super::volume;
use crate::allocator;
use crate::allocator::bits;
use crate::allocator::block_alloc;
use crate::allocator::block_bitmap;
use crate::allocator::inode_alloc;
use crate::allocator::inode_bitmap;
use crate::block_device;
use crate::bytes;
use crate::clock;
use crate::dir;
use crate::dir_write;
use crate::extent;
use crate::extent_write;
use crate::fs_context;
use crate::fs_context::VolState;
use crate::fs_state;
use crate::fs_state::FsState;
use crate::fsp_impl;
use crate::fsp_impl::delete;
use crate::fsp_impl::read_file;
use crate::inode;
use crate::inode::{InodeError, InodeView};
use crate::inode_write;
use crate::journal::writer;
use crate::journal::writer::LogState;
use crate::superblock::Superblock;

verus! {

/// Removing the entry of a file from its directory pins one block, which the directory
/// maps. Gives that block, and what is pinned.
proof fn lemma_entry_removed(
    v: VolState,
    sb: Superblock,
    parent: u32,
    d: nat,
    name: Seq<char>,
) -> (r: (u64, Seq<u8>))
    requires
        volume::sound_file(requests::at_rest(v), sb, parent, d),
        append::clear_of(requests::at_rest(v), sb, parent, d, v.w.blocks),
        ({
            let st = requests::at_rest(v);
            dir_write::removed(st, sb, st.gdt, parent, name).1 is Ok
        }),
    ensures
        ({
            let st = requests::at_rest(v);
            &&& dir_write::removed(st, sb, st.gdt, parent, name).0 == fs_state::pin(st, r.0, r.1)
            &&& r.1.len() == sb.block_size
            &&& exists|l: u64| #[trigger]
                extent::mapped(volume::extents_now(st, sb, parent), l) == Some(r.0)
            &&& volume::kept_apart(st, sb, parent, r.0)
        }),
{
    let st = requests::at_rest(v);
    let log = v.w.blocks;
    let i = volume::inode_now(st, sb, parent);
    let n = dir::dir_blocks(sb, i);
    requests::lemma_at_rest(v, sb, parent);
    dirs::lemma_sound_dir(st, sb, parent, d, log);
    let (l, data) = dirs::lemma_removed_where(st, sb, i, name, 0, n);
    let p = dirs::place(st.disk, sb, i, l)->Ok_0->Some_0;
    volume::lemma_extents(st, sb, parent, d);
    dirs::lemma_dir_blocks(sb, i);
    data::lemma_found(st, sb, parent, d, l as u64);
    assert(extent::mapped(volume::extents_now(st, sb, parent), l as u64) == Some(p));
    (p, data)
}

/// Whether the blocks of directory `parent` are used by nothing that file `num` holds, and
/// the two have records of their own.
pub open spec fn parted(
    st: FsState,
    sb: Superblock,
    parent: u32,
    num: u32,
    dn: nat,
) -> bool {
    &&& inode_write::apart(sb, st.gdt, parent, num)
    &&& forall|l: u64|
        (#[trigger] extent::mapped(volume::extents_now(st, sb, parent), l)) is Some
            ==> append::foreign(
            st,
            sb,
            num,
            dn,
            extent::mapped(volume::extents_now(st, sb, parent), l)->Some_0,
        )
}

/// Deleting one of several names of a file leaves the file: its inode counts one link less,
/// its size and what it holds are as they were, every byte of it is read as before, and no
/// block and no inode is marked as free, nor as used, that was not.
#[verifier::rlimit(100)]
pub proof fn law_other_name_keeps_file(
    v: VolState,
    sb: Superblock,
    parent_path: Seq<char>,
    parent: u32,
    d: nat,
    name: Seq<char>,
    num: u32,
    dn: nat,
    seconds: Option<u64>,
    offset: u64,
    len: int,
)
    requires
        fs_context::resolved(v.disk, sb, v.gdt, parent_path) is Ok,
        fs_context::resolved(v.disk, sb, v.gdt, parent_path)->Ok_0 == parent,
        volume::sound_file(requests::at_rest(v), sb, parent, d),
        volume::sound_file(requests::at_rest(v), sb, num, dn),
        append::clear_of(requests::at_rest(v), sb, parent, d, v.w.blocks),
        append::clear_of(requests::at_rest(v), sb, num, dn, v.w.blocks),
        parted(requests::at_rest(v), sb, parent, num, dn),
        v.w.bs == sb.block_size,
        inode::inode_at(v.disk, sb, v.gdt, num)->Ok_0.links_count >= 2,
        delete::deleted(v, sb, parent_path, name, num, false, seconds).1 is Ok,
        0 <= len,
    ensures
        ({
            let v2 = delete::deleted(v, sb, parent_path, name, num, false, seconds).0;
            let i = inode::inode_at(v.disk, sb, v.gdt, num)->Ok_0;
            let j = inode::inode_at(v2.disk, sb, v2.gdt, num);
            &&& j is Ok
            &&& j->Ok_0.links_count == i.links_count - 1
            &&& j->Ok_0.mode == i.mode
            &&& j->Ok_0.uid == i.uid
            &&& j->Ok_0.gid == i.gid
            &&& j->Ok_0.size == i.size
            &&& j->Ok_0.mtime == i.mtime
            &&& j->Ok_0.flags == i.flags
            &&& j->Ok_0.block_data == i.block_data
            &&& read_file::read_out(v2, sb, num, offset, len) == read_file::read_out(
                v,
                sb,
                num,
                offset,
                len,
            )
            &&& v2.gdt == v.gdt
            &&& forall|b: u64| #[trigger]
                volume::used(requests::at_rest(v2), sb, b) == volume::used(
                    requests::at_rest(v),
                    sb,
                    b,
                )
            &&& forall|g: int|
                0 <= g < v.gdt.len() && append::foreign(
                    requests::at_rest(v),
                    sb,
                    parent,
                    d,
                    v.gdt[g].inode_bitmap,
                ) && v.gdt[g].inode_bitmap != volume::table_block(v.gdt, sb, num)
                    && !v.w.blocks.contains(v.gdt[g].inode_bitmap)
                    ==> #[trigger] inode_bitmap::loaded(v2.disk, sb, v2.gdt, g)
                    == inode_bitmap::loaded(v.disk, sb, v.gdt, g)
        }),
{
    let bs = sb.block_size;
    let st = requests::at_rest(v);
    let log = v.w.blocks;
    let i = volume::inode_now(st, sb, num);
    let t = volume::table_block(st.gdt, sb, num);
    let o = inode::slot_offset(sb, num);
    let (p, data) = lemma_entry_removed(v, sb, parent, d, name);
    let s1 = fs_state::pin(st, p, data);
    let l = choose|l: u64| #[trigger]
        extent::mapped(volume::extents_now(st, sb, parent), l) == Some(p);
    assert(append::foreign(st, sb, num, dn, p));
    requests::lemma_at_rest(v, sb, num);
    pins::lemma_pinned(st, sb, p, data);
    let u = fsp_impl::relink((i.links_count - 1) as u16, seconds);
    let s2 = fsp_impl::touched(s1, sb, num, u).0;
    pins::lemma_updated(s1, sb, num, u);
    volume::lemma_slot_read(st, sb, num);
    writer::lemma_pin(st.txn.blocks, p, data, t);
    let x = block_device::block_at(st.disk, bs, t)->Ok_0;
    let rec = x.subrange(o, o + 128);
    let y = bytes::put(x, o, inode_write::updated_record(rec, u));
    inode_write::lemma_updated_record(rec, u);
    assert(volume::agrees(st, bs, t));
    assert(fs_state::fetched(s1.disk, s1.txn.blocks, bs, t) == block_device::block_at(
        st.disk,
        bs,
        t,
    )) by {
        reveal(volume::agrees);
    }
    assert(s2 == fs_state::pin(s1, t, y));
    let v2 = delete::deleted(v, sb, parent_path, name, num, false, seconds).0;
    assert(v2 == fsp_impl::ended(fs_context::after(v, s2), s2.txn).0);
    names::lemma_ended(v, s2, sb);
    if log.contains(t) {
        assert(append::bystander(st, sb, num, dn, t));
    }
    writer::lemma_pin(s1.txn.blocks, t, y, t);
    assert(y.subrange(o, o + 128) =~= inode_write::updated_record(rec, u));
    volume::lemma_inode_seen(s2, sb, num, log, v2.disk);
    assert forall|c: u64| #![trigger block_device::block_at(v2.disk, bs, c)]
        c != t && c != p && !log.contains(c) implies block_device::block_at(v2.disk, bs, c)
        == block_device::block_at(v.disk, bs, c) by {
        writer::lemma_pin(s1.txn.blocks, t, y, c);
        writer::lemma_pin(st.txn.blocks, p, data, c);
    }
    assert forall|b: u64| #[trigger] names::held(st, sb, num, dn, b) && b != t implies
        block_device::block_at(v2.disk, bs, b) == block_device::block_at(v.disk, bs, b) by {
        if log.contains(b) {
            assert(append::bystander(st, sb, num, dn, b));
        }
    }
    others::lemma_held_stays(v, v2, sb, num, dn, offset, len);
    assert forall|b: u64| #[trigger] volume::used(requests::at_rest(v2), sb, b) == volume::used(
        st,
        sb,
        b,
    ) by {
        lemma_used_kept(v, v2, sb, parent, d, p, t, b);
    }
    assert forall|g: int|
        0 <= g < v.gdt.len() && append::foreign(st, sb, parent, d, v.gdt[g].inode_bitmap)
            && v.gdt[g].inode_bitmap != t && !log.contains(
            v.gdt[g].inode_bitmap,
        ) implies #[trigger] inode_bitmap::loaded(v2.disk, sb, v2.gdt, g) == inode_bitmap::loaded(
        v.disk,
        sb,
        v.gdt,
        g,
    ) by {
        assert(v.gdt[g].inode_bitmap != p);
    }
}

/// Blocks are used as before where only two that are no group's, and the journal's, changed.
proof fn lemma_used_kept(
    v: VolState,
    v2: VolState,
    sb: Superblock,
    parent: u32,
    d: nat,
    p: u64,
    t: u64,
    b: u64,
)
    requires
        v2.gdt == v.gdt,
        sb.wf(),
        append::clear_of(requests::at_rest(v), sb, parent, d, v.w.blocks),
        !volume::is_group_block(v.gdt, sb, p),
        !volume::is_group_block(v.gdt, sb, t),
        forall|c: u64| #![trigger block_device::block_at(v2.disk, sb.block_size, c)]
            c != t && c != p && !v.w.blocks.contains(c) ==> block_device::block_at(
                v2.disk,
                sb.block_size,
                c,
            ) == block_device::block_at(v.disk, sb.block_size, c),
    ensures
        volume::used(requests::at_rest(v2), sb, b) == volume::used(requests::at_rest(v), sb, b),
{
    reveal(volume::used);
    let g = block_alloc::group_of(sb, b);
    if b >= sb.first_data_block && g < v.gdt.len() {
        vstd::arithmetic::div_mod::lemma_div_pos_is_pos(
            b - sb.first_data_block,
            sb.blocks_per_group as int,
        );
        let m = v.gdt[g].block_bitmap;
        assert(volume::is_group_block(v.gdt, sb, m)) by {
            reveal(volume::is_group_block);
            assert(volume::is_of_group(v.gdt, sb, g, m));
        }
        if v.w.blocks.contains(m) {
            assert(append::bystander(requests::at_rest(v), sb, parent, d, m));
        }
        assert(block_device::block_at(v2.disk, sb.block_size, m) == block_device::block_at(
            v.disk,
            sb.block_size,
            m,
        ));
    }
}

/// Freeing an inode in the middle of a transaction: the bit of its group's bitmap is clear
/// then, its record carries the time, blocks are used as before, and the transaction sees
/// what is on the device wherever it did.
#[verifier::rlimit(100)]
proof fn lemma_inode_freed(st: FsState, sb: Superblock, num: u32, now: u32)
    requires
        pins::whole(st, sb),
        allocator::laws::fits(st, sb),
        num > 0,
        inode_alloc::freed(st, sb, num, now).1 is Ok,
        inode::index_of(sb, num) < 8 * sb.block_size,
        !volume::is_group_block(st.gdt, sb, names::inode_map(st.gdt, sb, num)),
        !volume::is_group_block(st.gdt, sb, volume::table_block(st.gdt, sb, num)),
        names::inode_map(st.gdt, sb, num) != volume::table_block(st.gdt, sb, num),
    ensures
        ({
            let s = inode_alloc::freed(st, sb, num, now).0;
            let g = inode::group_of(sb, num);
            let t = volume::table_block(st.gdt, sb, num);
            let b = block_device::block_at(s.disk, sb.block_size, t);
            &&& pins::whole(s, sb)
            &&& pins::in_step(st, s, sb)
            &&& volume::same_layout(st.gdt, s.gdt)
            &&& inode_bitmap::loaded(s.disk, sb, s.gdt, g) is Ok
            &&& !bits::bit(
                inode_bitmap::loaded(s.disk, sb, s.gdt, g)->Ok_0,
                inode::index_of(sb, num),
            )
            &&& b is Ok
            &&& b->Ok_0.len() == sb.block_size
            &&& bytes::le32(b->Ok_0, inode::slot_offset(sb, num) + 20) == now
            &&& forall|c: u64| #[trigger] volume::used(s, sb, c) == volume::used(st, sb, c)
        }),
{
    let bs = sb.block_size;
    let g = inode::group_of(sb, num);
    let m = names::inode_map(st.gdt, sb, num);
    let t = volume::table_block(st.gdt, sb, num);
    let o = inode::slot_offset(sb, num);
    let k = inode::index_of(sb, num);
    allocator::laws::law_inode_freed(st, sb, num, now);
    vstd::arithmetic::div_mod::lemma_div_pos_is_pos(num - 1, sb.inodes_per_group as int);
    inode::lemma_slot_offset(sb, num);
    let bm = inode_bitmap::loaded(st.disk, sb, st.gdt, g)->Ok_0;
    let data = inode_alloc::cleared(bm, k);
    block_device::lemma_block_at(st.disk, bs, m);
    let s1 = fs_state::store(st, bs, m, data).0;
    pins::lemma_stored(st, sb, m, data);
    let y = block_device::block_at(s1.disk, bs, t)->Ok_0;
    let z = bytes::put(y, o + 20, bytes::le32_bytes(now));
    block_device::lemma_block_at(s1.disk, bs, t);
    bytes::lemma_le32_len(now);
    bytes::lemma_put_len(y, o + 20, bytes::le32_bytes(now));
    bytes::lemma_le32_same(y, o + 20, now);
    let s2 = fs_state::store(s1, bs, t, z).0;
    pins::lemma_stored(s1, sb, t, z);
    block_device::lemma_block_write_read(s1.disk, bs, t, z, t);
    let s3 = FsState { gdt: crate::group_desc::with_free_inodes(s2.gdt, g, 1), ..s2 };
    let dirs = -inode_alloc::dirs_of(inode_alloc::is_dir_at(s2.disk, sb, s2.gdt, num));
    let s = inode_alloc::freed(st, sb, num, now).0;
    assert(s == block_alloc::tallied(s3, sb, g, dirs).0);
    allocator::laws::lemma_tallied(s3, sb, g, dirs);
    pins::lemma_tallied(s3, sb, g, dirs);
    assert(pins::in_step(s2, s3, sb)) by {
        reveal(volume::agrees);
    }
    let gb = block_alloc::gdt_block(sb, g);
    assert(volume::is_group_block(st.gdt, sb, gb)) by {
        reveal(volume::is_group_block);
        assert(volume::is_of_group(st.gdt, sb, g, gb));
    }
    assert forall|c: u64| #[trigger] volume::agrees(st, bs, c) implies volume::agrees(s, bs, c) by {
        assert(volume::agrees(s1, bs, c));
        assert(volume::agrees(s2, bs, c));
        assert(volume::agrees(s3, bs, c));
    }
    assert forall|c: u64| #[trigger] volume::used(s, sb, c) == volume::used(st, sb, c) by {
        reveal(volume::used);
        let h = block_alloc::group_of(sb, c);
        if c >= sb.first_data_block && h < st.gdt.len() {
            vstd::arithmetic::div_mod::lemma_div_pos_is_pos(
                c - sb.first_data_block,
                sb.blocks_per_group as int,
            );
            let x = st.gdt[h].block_bitmap;
            assert(volume::is_group_block(st.gdt, sb, x)) by {
                reveal(volume::is_group_block);
                assert(volume::is_of_group(st.gdt, sb, h, x));
            }
            assert(gb != x);
            block_device::lemma_block_write_read(st.disk, bs, m, data, x);
            block_device::lemma_block_write_read(s1.disk, bs, t, z, x);
            assert(block_device::block_at(s.disk, bs, x) == block_device::block_at(
                st.disk,
                bs,
                x,
            ));
            assert(s.gdt[h].block_bitmap == x);
        }
    }
}

/// Whether the blocks that the extents `v` map are all free.
pub open spec fn all_free(st: FsState, sb: Superblock, v: Seq<extent::ExtentLeaf>) -> bool {
    forall|l: u64|
        (#[trigger] extent::mapped(v, l)) is Some ==> !volume::used(
            st,
            sb,
            extent::mapped(v, l)->Some_0,
        )
}

/// Dropping the last link of a sound file frees its blocks and its inode.
#[verifier::rlimit(100)]
proof fn lemma_let_go(
    st: FsState,
    sb: Superblock,
    num: u32,
    d: nat,
    links: u16,
    seconds: Option<u64>,
)
    requires
        volume::sound_file(st, sb, num, d),
        pins::whole(st, sb),
        links <= 1,
        tree::end_of(volume::extents_now(st, sb, num)) <= u32::MAX,
        append::bystander(st, sb, num, d, names::inode_map(st.gdt, sb, num)),
        inode::index_of(sb, num) < 8 * sb.block_size,
        delete::unlinked(st, sb, num, links, seconds).1 is Ok,
    ensures
        ({
            let s = delete::unlinked(st, sb, num, links, seconds).0;
            let g = inode::group_of(sb, num);
            let t = volume::table_block(st.gdt, sb, num);
            let b = block_device::block_at(s.disk, sb.block_size, t);
            &&& pins::whole(s, sb)
            &&& pins::in_step(st, s, sb)
            &&& volume::same_layout(st.gdt, s.gdt)
            &&& inode_bitmap::loaded(s.disk, sb, s.gdt, g) is Ok
            &&& !bits::bit(
                inode_bitmap::loaded(s.disk, sb, s.gdt, g)->Ok_0,
                inode::index_of(sb, num),
            )
            &&& b is Ok
            &&& b->Ok_0.len() == sb.block_size
            &&& bytes::le32(b->Ok_0, inode::slot_offset(sb, num) + 20) == clock::stamp(seconds)
            &&& all_free(s, sb, volume::extents_now(st, sb, num))
        }),
{
    let v = volume::extents_now(st, sb, num);
    let s1 = extent_write::truncated(st, sb, num, 0).0;
    let now = clock::stamp(seconds);
    let s = delete::unlinked(st, sb, num, links, seconds).0;
    assert(s == inode_alloc::freed(s1, sb, num, now).0);
    let _ = trim::lemma_truncated_on(st, sb, num, d, 0, s1.disk);
    pins::law_truncated_whole(st, sb, num, 0);
    volume::lemma_slot_read(st, sb, num);
    lemma_layout(st.gdt, s1.gdt, sb);
    let g = inode::group_of(sb, num);
    assert(st.gdt[g].inode_table == s1.gdt[g].inode_table);
    assert(st.gdt[g].inode_bitmap == s1.gdt[g].inode_bitmap);
    lemma_inode_freed(s1, sb, num, now);
    assert forall|c: u64| #[trigger] volume::agrees(st, sb.block_size, c) implies volume::agrees(
        s,
        sb.block_size,
        c,
    ) by {
        assert(volume::agrees(s1, sb.block_size, c));
    }
    assert forall|l: u64| (#[trigger] extent::mapped(v, l)) is Some implies !volume::used(
        s,
        sb,
        extent::mapped(v, l)->Some_0,
    ) by {
        assert(!volume::used(s1, sb, extent::mapped(v, l)->Some_0));
    }
}

/// Descriptors that say the same of where the groups lie.
proof fn lemma_layout(
    a: Seq<crate::group_desc::GroupDesc>,
    b: Seq<crate::group_desc::GroupDesc>,
    sb: Superblock,
)
    requires
        volume::same_layout(a, b),
    ensures
        forall|c: u64| #[trigger]
            volume::is_group_block(a, sb, c) == volume::is_group_block(b, sb, c),
        allocator::laws::table_apart(a, sb) ==> allocator::laws::table_apart(b, sb),
{
    reveal(volume::is_group_block);
    assert forall|c: u64| #[trigger]
        volume::is_group_block(a, sb, c) == volume::is_group_block(b, sb, c) by {
        if volume::is_group_block(a, sb, c) {
            let g = choose|g: int| 0 <= g < a.len() && #[trigger] volume::is_of_group(a, sb, g, c);
            assert(a[g].block_bitmap == b[g].block_bitmap);
            assert(volume::is_of_group(b, sb, g, c));
        }
        if volume::is_group_block(b, sb, c) {
            let g = choose|g: int| 0 <= g < b.len() && #[trigger] volume::is_of_group(b, sb, g, c);
            assert(a[g].block_bitmap == b[g].block_bitmap);
            assert(volume::is_of_group(a, sb, g, c));
        }
    }
    if allocator::laws::table_apart(a, sb) {
        assert forall|g: int, h: int| #![trigger block_alloc::gdt_block(sb, g), b[h]]
            0 <= g < b.len() && 0 <= h < b.len() implies block_alloc::gdt_block(sb, g)
            != b[h].block_bitmap && block_alloc::gdt_block(sb, g) != b[h].inode_bitmap by {
            assert(a[h].block_bitmap == b[h].block_bitmap);
        }
    }
}

/// Deleting the last name of a file, or a directory, frees what it was: its inode carries a
/// deletion time and cannot be read any more, it is marked as free, and so is each block
/// that held its data.
///
/// Left out is a second in which the low 32 bits of the time are all zero: the record
/// then looks like that of a live inode. A file that reaches the last logical block there
/// can be is left out, as it is of cutting a tree.
#[verifier::rlimit(100)]
pub proof fn law_last_name_frees_file(
    v: VolState,
    sb: Superblock,
    parent_path: Seq<char>,
    parent: u32,
    d: nat,
    name: Seq<char>,
    num: u32,
    dn: nat,
    is_dir: bool,
    seconds: Option<u64>,
)
    requires
        fs_context::resolved(v.disk, sb, v.gdt, parent_path) is Ok,
        fs_context::resolved(v.disk, sb, v.gdt, parent_path)->Ok_0 == parent,
        volume::sound_file(requests::at_rest(v), sb, parent, d),
        volume::sound_file(requests::at_rest(v), sb, num, dn),
        append::clear_of(requests::at_rest(v), sb, parent, d, v.w.blocks),
        append::clear_of(requests::at_rest(v), sb, num, dn, v.w.blocks),
        names::out_of_reach(requests::at_rest(v), sb, parent, d, num, dn),
        !v.w.blocks.contains(names::inode_map(v.gdt, sb, num)),
        inode::index_of(sb, num) < 8 * sb.block_size,
        tree::end_of(volume::extents_now(requests::at_rest(v), sb, num)) <= u32::MAX,
        v.w.bs == sb.block_size,
        is_dir || inode::inode_at(v.disk, sb, v.gdt, num)->Ok_0.links_count <= 1,
        clock::stamp(seconds) != 0,
        delete::deleted(v, sb, parent_path, name, num, is_dir, seconds).1 is Ok,
    ensures
        ({
            let v2 = delete::deleted(v, sb, parent_path, name, num, is_dir, seconds).0;
            let bm = inode_bitmap::loaded(v2.disk, sb, v2.gdt, inode::group_of(sb, num));
            &&& inode::inode_at(v2.disk, sb, v2.gdt, num) == Err::<InodeView, InodeError>(
                InodeError::Deleted(num),
            )
            &&& bm is Ok
            &&& !bits::bit(bm->Ok_0, inode::index_of(sb, num))
            &&& all_free(
                requests::at_rest(v2),
                sb,
                volume::extents_now(requests::at_rest(v), sb, num),
            )
        }),
{
    let bs = sb.block_size;
    let st = requests::at_rest(v);
    let log = v.w.blocks;
    let e = volume::extents_now(st, sb, num);
    let t = volume::table_block(st.gdt, sb, num);
    let tp = volume::table_block(st.gdt, sb, parent);
    let o = inode::slot_offset(sb, num);
    let m = names::inode_map(st.gdt, sb, num);
    let links = delete::last_links(is_dir, volume::inode_now(st, sb, num).links_count);
    let (p, data) = lemma_entry_removed(v, sb, parent, d, name);
    let s1 = fs_state::pin(st, p, data);
    let l = choose|l: u64| #[trigger]
        extent::mapped(volume::extents_now(st, sb, parent), l) == Some(p);
    assert(append::bystander(st, sb, num, dn, p));
    requests::lemma_at_rest(v, sb, num);
    pins::lemma_pinned(st, sb, p, data);
    names::lemma_pin_beside(st, sb, num, dn, p, data);
    assert(append::bystander(s1, sb, num, dn, m));
    volume::lemma_slot_read(st, sb, num);
    volume::lemma_slot_read(st, sb, parent);
    lemma_let_go(s1, sb, num, dn, links, seconds);
    names::lemma_unlinked(s1, sb, num, dn, links, seconds);
    let s2 = delete::unlinked(s1, sb, num, links, seconds).0;
    names::lemma_dropped_from(st, s1, s2, sb, parent, d, num, dn, p, data);
    let op = inode::slot_offset(sb, parent);
    let y = fs_state::fetched(s2.disk, s2.txn.blocks, bs, tp)->Ok_0;
    let rec = y.subrange(op, op + 128);
    let links2 = inode::inode_at(s2.disk, sb, s2.gdt, parent)->Ok_0.links_count;
    let u = fsp_impl::relink(delete::one_less(links2), seconds);
    let z = bytes::put(y, op, inode_write::updated_record(rec, u));
    inode_write::lemma_updated_record(rec, u);
    let s3 = if is_dir {
        fsp_impl::touched(s2, sb, parent, u).0
    } else {
        s2
    };
    pins::lemma_updated(s2, sb, parent, u);
    let v2 = delete::deleted(v, sb, parent_path, name, num, is_dir, seconds).0;
    assert(v2 == fsp_impl::ended(fs_context::after(v, s3), s3.txn).0);
    names::lemma_ended(v, s3, sb);
    assert(is_dir ==> s3 == fs_state::pin(s2, tp, z));
    if log.contains(t) {
        assert(append::bystander(st, sb, num, dn, t));
    }
    assert(m != p) by {
        assert(append::unmapped(volume::extents_now(st, sb, parent), m));
    }
    assert(m != tp);
    assert forall|c: u64| #![trigger block_device::block_at(v2.disk, bs, c)]
        c != p && c != tp && !log.contains(c) implies block_device::block_at(v2.disk, bs, c)
        == block_device::block_at(s2.disk, bs, c) by {
        lemma_still_agrees(st, s1, s2, sb, p, data, c);
        if is_dir {
            writer::lemma_pin(s2.txn.blocks, tp, z, c);
        }
        reveal(volume::agrees);
    }
    let g = inode::group_of(sb, num);
    assert(s1.gdt[g].inode_bitmap == s2.gdt[g].inode_bitmap);
    assert(s1.gdt[g].inode_table == s2.gdt[g].inode_table);
    assert(block_device::block_at(v2.disk, bs, m) == block_device::block_at(s2.disk, bs, m));
    // The record of the deleted inode.
    lemma_still_agrees(st, s1, s2, sb, p, data, t);
    let b = block_device::block_at(s2.disk, bs, t)->Ok_0;
    let w = fs_state::fetched(s3.disk, s3.txn.blocks, bs, t)->Ok_0;
    reveal(volume::agrees);
    if is_dir {
        writer::lemma_pin(s2.txn.blocks, tp, z, t);
        if tp == t {
            assert(volume::same_beside(z, y, sb, parent));
            names::lemma_record_beside(z, y, sb, parent, num);
        }
    }
    assert(w.subrange(o, o + 128) == b.subrange(o, o + 128));
    bytes::lemma_le32_part(b, o, o + 128, 20);
    volume::lemma_inode_seen(s3, sb, num, log, v2.disk);
    // The blocks of its data.
    assert forall|x: u64| (#[trigger] extent::mapped(e, x)) is Some implies !volume::used(
        requests::at_rest(v2),
        sb,
        extent::mapped(e, x)->Some_0,
    ) by {
        let c = extent::mapped(e, x)->Some_0;
        assert(!volume::used(s2, sb, c));
        lemma_used_on(v, v2, s2, sb, parent, d, p, tp, c);
    }
}

/// A block that is not the one pinned is seen as on the device still.
proof fn lemma_still_agrees(
    st: FsState,
    s1: FsState,
    s2: FsState,
    sb: Superblock,
    p: u64,
    data: Seq<u8>,
    c: u64,
)
    requires
        st.txn.blocks.len() == 0,
        s1 == fs_state::pin(st, p, data),
        pins::in_step(s1, s2, sb),
        c != p,
    ensures
        volume::agrees(s2, sb.block_size, c),
{
    reveal(volume::agrees);
    writer::lemma_pin(st.txn.blocks, p, data, c);
    assert(volume::agrees(s1, sb.block_size, c));
}

/// A block is used on a device as in the transaction that was committed to it.
proof fn lemma_used_on(
    v: VolState,
    v2: VolState,
    s: FsState,
    sb: Superblock,
    parent: u32,
    d: nat,
    p: u64,
    t: u64,
    b: u64,
)
    requires
        v2.gdt == s.gdt,
        volume::same_layout(v.gdt, s.gdt),
        sb.wf(),
        append::clear_of(requests::at_rest(v), sb, parent, d, v.w.blocks),
        !volume::is_group_block(v.gdt, sb, p),
        !volume::is_group_block(v.gdt, sb, t),
        forall|c: u64| #![trigger block_device::block_at(v2.disk, sb.block_size, c)]
            c != p && c != t && !v.w.blocks.contains(c) ==> block_device::block_at(
                v2.disk,
                sb.block_size,
                c,
            ) == block_device::block_at(s.disk, sb.block_size, c),
    ensures
        volume::used(requests::at_rest(v2), sb, b) == volume::used(s, sb, b),
{
    reveal(volume::used);
    let g = block_alloc::group_of(sb, b);
    if b >= sb.first_data_block && g < v.gdt.len() {
        vstd::arithmetic::div_mod::lemma_div_pos_is_pos(
            b - sb.first_data_block,
            sb.blocks_per_group as int,
        );
        let m = v.gdt[g].block_bitmap;
        assert(s.gdt[g].block_bitmap == m);
        assert(volume::is_group_block(v.gdt, sb, m)) by {
            reveal(volume::is_group_block);
            assert(volume::is_of_group(v.gdt, sb, g, m));
        }
        if v.w.blocks.contains(m) {
            assert(append::bystander(requests::at_rest(v), sb, parent, d, m));
        }
        assert(block_device::block_at(v2.disk, sb.block_size, m) == block_device::block_at(
            s.disk,
            sb.block_size,
            m,
        ));
    }
}

/// Deleting one of several names of a file succeeds where its directory gives it up, and the
/// journal is on the device.
#[verifier::rlimit(50)]
pub proof fn law_unlinking_succeeds(
    v: VolState,
    sb: Superblock,
    parent_path: Seq<char>,
    parent: u32,
    d: nat,
    name: Seq<char>,
    num: u32,
    dn: nat,
    seconds: Option<u64>,
)
    requires
        fs_context::resolved(v.disk, sb, v.gdt, parent_path) is Ok,
        fs_context::resolved(v.disk, sb, v.gdt, parent_path)->Ok_0 == parent,
        volume::sound_file(requests::at_rest(v), sb, parent, d),
        volume::sound_file(requests::at_rest(v), sb, num, dn),
        append::clear_of(requests::at_rest(v), sb, parent, d, v.w.blocks),
        parted(requests::at_rest(v), sb, parent, num, dn),
        v.w.bs == sb.block_size,
        sb.block_size >= 1024,
        success::log_on(LogState { disk: v.disk, w: v.w }),
        inode::inode_at(v.disk, sb, v.gdt, num)->Ok_0.links_count >= 2,
        ({
            let st = requests::at_rest(v);
            dir_write::removed(st, sb, st.gdt, parent, name).1 is Ok
        }),
    ensures
        delete::deleted(v, sb, parent_path, name, num, false, seconds).1 is Ok,
{
    let bs = sb.block_size;
    let st = requests::at_rest(v);
    let i = volume::inode_now(st, sb, num);
    let t = volume::table_block(st.gdt, sb, num);
    let o = inode::slot_offset(sb, num);
    let (p, data) = lemma_entry_removed(v, sb, parent, d, name);
    lemma_entry_on(v, sb, parent, d, name, p);
    let s1 = fs_state::pin(st, p, data);
    let l = choose|l: u64| #[trigger]
        extent::mapped(volume::extents_now(st, sb, parent), l) == Some(p);
    assert(append::foreign(st, sb, num, dn, p));
    requests::lemma_at_rest(v, sb, num);
    assert(success::settled(st, sb));
    success::lemma_pin_settled(st, sb, p, data);
    let u = fsp_impl::relink((i.links_count - 1) as u16, seconds);
    let s2 = fsp_impl::touched(s1, sb, num, u).0;
    volume::lemma_slot_read(st, sb, num);
    writer::lemma_pin(st.txn.blocks, p, data, t);
    let x = block_device::block_at(st.disk, bs, t)->Ok_0;
    let rec = x.subrange(o, o + 128);
    let y = bytes::put(x, o, inode_write::updated_record(rec, u));
    bytes::lemma_put_len(x, o, inode_write::updated_record(rec, u));
    assert(volume::agrees(st, bs, t));
    assert(fs_state::fetched(s1.disk, s1.txn.blocks, bs, t) == block_device::block_at(
        st.disk,
        bs,
        t,
    )) by {
        reveal(volume::agrees);
    }
    assert(s2 == fs_state::pin(s1, t, y));
    success::lemma_pin_settled(s1, sb, t, y);
    assert(s1.txn.blocks.len() <= 1);
    assert(s2.txn.blocks.len() <= 2) by {
        writer::lemma_pin_index(s1.txn.blocks, t);
        assert(s2.txn.blocks == writer::pin(s1.txn.blocks, t, y));
    }
    success::law_commit_succeeds(LogState { disk: s2.disk, w: v.w }, s2.txn);
}

/// The block of a directory from which an entry is removed is on the device.
proof fn lemma_entry_on(v: VolState, sb: Superblock, parent: u32, d: nat, name: Seq<char>, p: u64)
    requires
        volume::sound_file(requests::at_rest(v), sb, parent, d),
        append::clear_of(requests::at_rest(v), sb, parent, d, v.w.blocks),
        ({
            let st = requests::at_rest(v);
            &&& dir_write::removed(st, sb, st.gdt, parent, name).1 is Ok
            &&& dir_write::removed(st, sb, st.gdt, parent, name).0.txn.blocks.len() > 0
            &&& dir_write::removed(st, sb, st.gdt, parent, name).0.txn.blocks[0].0 == p
        }),
    ensures
        block_device::block_at(v.disk, sb.block_size, p) is Ok,
{
    let st = requests::at_rest(v);
    let i = volume::inode_now(st, sb, parent);
    let n = dir::dir_blocks(sb, i);
    requests::lemma_at_rest(v, sb, parent);
    dirs::lemma_sound_dir(st, sb, parent, d, v.w.blocks);
    let (l, data) = dirs::lemma_removed_where(st, sb, i, name, 0, n);
    let q = dirs::place(st.disk, sb, i, l)->Ok_0->Some_0;
    assert(fs_state::pin(st, q, data).txn.blocks[0].0 == q);
}

/// Deleting a directory takes the link that its ".." is from its parent, and leaves the parent's
/// inode otherwise, but for the time of the change.
#[verifier::rlimit(100)]
pub proof fn law_parent_loses_link(
    v: VolState,
    sb: Superblock,
    parent_path: Seq<char>,
    parent: u32,
    d: nat,
    name: Seq<char>,
    num: u32,
    dn: nat,
    seconds: Option<u64>,
)
    requires
        fs_context::resolved(v.disk, sb, v.gdt, parent_path) is Ok,
        fs_context::resolved(v.disk, sb, v.gdt, parent_path)->Ok_0 == parent,
        volume::sound_file(requests::at_rest(v), sb, parent, d),
        volume::sound_file(requests::at_rest(v), sb, num, dn),
        append::clear_of(requests::at_rest(v), sb, parent, d, v.w.blocks),
        names::out_of_reach(requests::at_rest(v), sb, parent, d, num, dn),
        tree::end_of(volume::extents_now(requests::at_rest(v), sb, num)) <= u32::MAX,
        v.w.bs == sb.block_size,
        delete::deleted(v, sb, parent_path, name, num, true, seconds).1 is Ok,
    ensures
        ({
            let v2 = delete::deleted(v, sb, parent_path, name, num, true, seconds).0;
            let i = inode::inode_at(v.disk, sb, v.gdt, parent)->Ok_0;
            let j = inode::inode_at(v2.disk, sb, v2.gdt, parent);
            &&& j is Ok
            &&& i.links_count > 0 ==> j->Ok_0.links_count == i.links_count - 1
            &&& j->Ok_0.mode == i.mode
            &&& j->Ok_0.size == i.size
            &&& j->Ok_0.block_data == i.block_data
        }),
{
    let bs = sb.block_size;
    let st = requests::at_rest(v);
    let log = v.w.blocks;
    let t = volume::table_block(st.gdt, sb, num);
    let tp = volume::table_block(st.gdt, sb, parent);
    let o = inode::slot_offset(sb, parent);
    let m = names::inode_map(st.gdt, sb, num);
    let links = delete::last_links(true, volume::inode_now(st, sb, num).links_count);
    let (p, data) = lemma_entry_removed(v, sb, parent, d, name);
    let s1 = fs_state::pin(st, p, data);
    let l = choose|l: u64| #[trigger]
        extent::mapped(volume::extents_now(st, sb, parent), l) == Some(p);
    assert(append::bystander(st, sb, num, dn, p));
    requests::lemma_at_rest(v, sb, num);
    pins::lemma_pinned(st, sb, p, data);
    names::lemma_pin_beside(st, sb, num, dn, p, data);
    assert(append::bystander(s1, sb, num, dn, m));
    volume::lemma_slot_read(st, sb, num);
    volume::lemma_slot_read(st, sb, parent);
    names::lemma_unlinked(s1, sb, num, dn, links, seconds);
    let s2 = delete::unlinked(s1, sb, num, links, seconds).0;
    names::lemma_dropped_from(st, s1, s2, sb, parent, d, num, dn, p, data);
    let g = inode::group_of(sb, parent);
    assert(s1.gdt[g].inode_table == s2.gdt[g].inode_table);
    // The parent's record on the device, before the update.
    let was = block_device::block_at(st.disk, bs, tp)->Ok_0;
    assert(block_device::block_at(s2.disk, bs, tp) is Ok && block_device::block_at(
        s2.disk,
        bs,
        tp,
    )->Ok_0.subrange(o, o + 128) == was.subrange(o, o + 128)) by {
        if tp == t {
            block_device::lemma_block_at(s2.disk, bs, t);
            names::lemma_record_beside(
                block_device::block_at(s2.disk, bs, t)->Ok_0,
                block_device::block_at(s1.disk, bs, t)->Ok_0,
                sb,
                num,
                parent,
            );
        } else {
            assert(append::bystander(s1, sb, num, dn, tp));
            assert(volume::untouched(s1, s2, bs, tp));
        }
    }
    volume::lemma_record_in_block(s2.disk, sb, s2.gdt, parent);
    let i = inode::inode_at(v.disk, sb, v.gdt, parent)->Ok_0;
    assert(inode::inode_at(s2.disk, sb, s2.gdt, parent)->Ok_0 == i);
    let y = fs_state::fetched(s2.disk, s2.txn.blocks, bs, tp)->Ok_0;
    let rec = y.subrange(o, o + 128);
    let u = fsp_impl::relink(delete::one_less(i.links_count), seconds);
    let z = bytes::put(y, o, inode_write::updated_record(rec, u));
    inode_write::lemma_updated_record(rec, u);
    let s3 = fsp_impl::touched(s2, sb, parent, u).0;
    pins::lemma_updated(s2, sb, parent, u);
    let v2 = delete::deleted(v, sb, parent_path, name, num, true, seconds).0;
    assert(v2 == fsp_impl::ended(fs_context::after(v, s3), s3.txn).0);
    names::lemma_ended(v, s3, sb);
    assert(s3 == fs_state::pin(s2, tp, z));
    if log.contains(tp) {
        assert(append::bystander(st, sb, parent, d, tp));
    }
    writer::lemma_pin(s2.txn.blocks, tp, z, tp);
    bytes::lemma_put_len(y, o, inode_write::updated_record(rec, u));
    assert(z.subrange(o, o + 128) =~= inode_write::updated_record(rec, u));
    volume::lemma_inode_seen(s3, sb, parent, log, v2.disk);
}

} // verus!
