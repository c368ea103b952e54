//! What creating, deleting and renaming promise of later lookups, once they are
//! committed.
use vstd::prelude::*;
use super::append;
use super::data;
use super::dirs;
use super::pins;
use super::requests;
use super::tree;
use super::trim;
use super::volume;
use crate::allocator;
use crate::allocator::bits;
use crate::allocator::block_alloc;
use crate::allocator::inode_alloc;
use crate::allocator::inode_bitmap;
use crate::block_device;
use crate::bytes;
use crate::clock;
use crate::dir;
use crate::dir::{DirError, EntryView};
use crate::dir_write;
use crate::extent;
use crate::extent_write;
use crate::fs_context;
use crate::fs_context::VolState;
use crate::fs_state;
use crate::fs_state::FsState;
use crate::fsp_impl;
use crate::fsp_impl::create;
use crate::fsp_impl::delete;
use crate::group_desc;
use crate::group_desc::GroupDesc;
use crate::inode;
use crate::inode::{InodeError, InodeView};
use crate::inode_write;
use crate::journal;
use crate::journal::writer;
use crate::superblock::Superblock;

verus! {

/// What a committed transaction leaves on the device: what it saw, outside of
/// the journal.
pub proof fn lemma_ended(v: VolState, s: FsState, sb: Superblock)
    requires
        v.w.bs == sb.block_size,
        s.disk.len() % 512 == 0,
        pins::whole(s, sb),
        fsp_impl::ended(fs_context::after(v, s), s.txn).1 is Ok,
    ensures
        ({
            let v2 = fsp_impl::ended(fs_context::after(v, s), s.txn).0;
            &&& v2.gdt == s.gdt
            &&& volume::sees(s, sb.block_size, v.w.blocks, v2.disk)
        }),
{
    let ls = writer::LogState { disk: s.disk, w: v.w };
    let disk = writer::committed(ls, s.txn).0.disk;
    assert forall|c: u64| #![trigger block_device::block_at(disk, sb.block_size, c)]
        !v.w.blocks.contains(c) implies block_device::block_at(disk, sb.block_size, c)
        == fs_state::fetched(s.disk, s.txn.blocks, sb.block_size, c) by {
        journal::laws::law_committed_shows(ls, s.txn, c);
    }
    journal::laws::law_committed_len(ls, s.txn);
}

/// The bitmap of used inodes of the group that holds inode `num`.
pub open spec fn inode_map(gdt: Seq<GroupDesc>, sb: Superblock, num: u32) -> u64 {
    gdt[inode::group_of(sb, num)].inode_bitmap
}

/// Whether `s` is `st` but for what dropping a link of inode `num` changes: the
/// groups' blocks, the bitmap of its group's inodes, its record, and the blocks
/// of its tree.
pub open spec fn dropped(st: FsState, s: FsState, sb: Superblock, num: u32, d: nat) -> bool {
    let t = volume::table_block(st.gdt, sb, num);
    let bs = sb.block_size;
    &&& pins::whole(s, sb)
    &&& s.disk.len() == st.disk.len()
    &&& volume::same_layout(st.gdt, s.gdt)
    &&& volume::record_changed(st, s, sb, num)
    &&& fs_state::fetched(s.disk, s.txn.blocks, bs, t) is Ok
    &&& volume::same_beside(
        fs_state::fetched(s.disk, s.txn.blocks, bs, t)->Ok_0,
        block_device::block_at(st.disk, bs, t)->Ok_0,
        sb,
        num,
    )
    &&& forall|c: u64| #![trigger block_device::block_at(s.disk, bs, c)]
        append::bystander(st, sb, num, d, c) && c != inode_map(st.gdt, sb, num)
            ==> volume::untouched(st, s, bs, c)
}

/// Dropping a link of a sound file.
#[verifier::rlimit(100)]
pub proof fn lemma_unlinked(
    st: FsState,
    sb: Superblock,
    num: u32,
    d: nat,
    links: u16,
    seconds: Option<u64>,
)
    requires
        volume::sound_file(st, sb, num, d),
        pins::whole(st, sb),
        delete::one_less(links) == 0 ==> {
            &&& tree::end_of(volume::extents_now(st, sb, num)) <= u32::MAX
            &&& append::bystander(st, sb, num, d, inode_map(st.gdt, sb, num))
        },
        delete::unlinked(st, sb, num, links, seconds).1 is Ok,
    ensures
        dropped(st, delete::unlinked(st, sb, num, links, seconds).0, sb, num, d),
{
    let bs = sb.block_size;
    let t = volume::table_block(st.gdt, sb, num);
    let o = inode::slot_offset(sb, num);
    let m = inode_map(st.gdt, sb, num);
    let s = delete::unlinked(st, sb, num, links, seconds).0;
    volume::lemma_slot_read(st, sb, num);
    let x = block_device::block_at(st.disk, bs, t)->Ok_0;
    if delete::one_less(links) == 0 {
        let s1 = extent_write::truncated(st, sb, num, 0).0;
        let _ = trim::lemma_truncated_on(st, sb, num, d, 0, s1.disk);
        pins::law_truncated_whole(st, sb, num, 0);
        let g = inode::group_of(sb, num);
        assert(st.gdt[g].inode_table == s1.gdt[g].inode_table);
        assert(s1.gdt[g].inode_bitmap == m);
        let bm = inode_bitmap::loaded(s1.disk, sb, s1.gdt, g)->Ok_0;
        let data = inode_alloc::cleared(bm, inode::index_of(sb, num));
        block_device::lemma_block_at(s1.disk, bs, m);
        let s2 = fs_state::store(s1, bs, m, data).0;
        pins::lemma_stored(s1, sb, m, data);
        assert forall|c: u64| #![trigger block_device::block_at(s2.disk, bs, c)]
            c != m implies volume::untouched(s1, s2, bs, c) by {
            block_device::lemma_block_write_read(s1.disk, bs, m, data, c);
            writer::lemma_pin(s1.txn.blocks, m, data, c);
        }
        assert(volume::untouched(s1, s2, bs, t));
        let y = block_device::block_at(s1.disk, bs, t)->Ok_0;
        let now = clock::stamp(seconds);
        let z = bytes::put(y, o + 20, bytes::le32_bytes(now));
        block_device::lemma_block_at(s2.disk, bs, t);
        bytes::lemma_le32_len(now);
        let s3 = fs_state::store(s2, bs, t, z).0;
        pins::lemma_stored(s2, sb, t, z);
        block_device::lemma_block_write_read(s2.disk, bs, t, z, t);
        writer::lemma_pin(s2.txn.blocks, t, z, t);
        let s4 = FsState { gdt: group_desc::with_free_inodes(s3.gdt, g, 1), ..s3 };
        let dirs = -inode_alloc::dirs_of(inode_alloc::is_dir_at(s3.disk, sb, s3.gdt, num));
        assert(s == block_alloc::tallied(s4, sb, g, dirs).0);
        allocator::laws::lemma_tallied(s4, sb, g, dirs);
        pins::lemma_tallied(s4, sb, g, dirs);
        let gb = block_alloc::gdt_block(sb, g);
        let w = block_device::block_at(s.disk, bs, gb)->Ok_0;
        assert(volume::is_group_block(st.gdt, sb, gb)) by {
            reveal(volume::is_group_block);
            assert(volume::is_of_group(st.gdt, sb, g, gb));
        }
        assert(t != gb);
        writer::lemma_pin(s4.txn.blocks, gb, w, t);
        assert(volume::same_beside(y, x, sb, num));
        assert forall|j: int| 0 <= j < z.len() && !(o <= j < o + 128) implies #[trigger] z[j]
            == x[j] by {
            assert(z[j] == y[j]);
        }
        assert forall|c: u64| #![trigger block_device::block_at(s.disk, bs, c)]
            append::bystander(st, sb, num, d, c) && c != m implies volume::untouched(
            st,
            s,
            bs,
            c,
        ) by {
            block_device::lemma_block_write_read(s2.disk, bs, t, z, c);
            writer::lemma_pin(s2.txn.blocks, t, z, c);
            writer::lemma_pin(s4.txn.blocks, gb, w, c);
            assert(volume::untouched(s1, s2, bs, c));
            assert(block_device::block_at(s1.disk, bs, c) == block_device::block_at(
                st.disk,
                bs,
                c,
            ));
            assert(volume::untouched(st, s1, bs, c));
        }
    } else {
        let u = fsp_impl::relink(delete::one_less(links), seconds);
        pins::lemma_updated(st, sb, num, u);
        reveal(volume::agrees);
        let rec = x.subrange(o, o + 128);
        let y = bytes::put(x, o, inode_write::updated_record(rec, u));
        inode_write::lemma_updated_record(rec, u);
        writer::lemma_pin(st.txn.blocks, t, y, t);
        assert(volume::same_beside(y, x, sb, num));
        assert forall|c: u64| #![trigger block_device::block_at(s.disk, bs, c)]
            append::bystander(st, sb, num, d, c) && c != m implies volume::untouched(
            st,
            s,
            bs,
            c,
        ) by {
            writer::lemma_pin(st.txn.blocks, t, y, c);
        }
    }
}

/// The device with block `p` as a transaction pins it is what the transaction
/// sees, if that saw what is on the device before.
pub proof fn lemma_with_block(st: FsState, sb: Superblock, p: u64, data: Seq<u8>, log: Seq<u64>)
    requires
        sb.wf(),
        st.disk.len() % 512 == 0,
        data.len() == sb.block_size,
        block_device::block_at(st.disk, sb.block_size, p) is Ok,
        forall|c: u64| #[trigger] volume::agrees(st, sb.block_size, c),
    ensures
        volume::sees(st, sb.block_size, log, st.disk),
        volume::sees(
            fs_state::pin(st, p, data),
            sb.block_size,
            log,
            block_device::with_block(st.disk, sb.block_size, p, data),
        ),
{
    let bs = sb.block_size;
    let disk = block_device::with_block(st.disk, bs, p, data);
    reveal(volume::agrees);
    assert forall|c: u64| #![trigger block_device::block_at(st.disk, bs, c)]
        block_device::block_at(st.disk, bs, c) == fs_state::fetched(
        st.disk,
        st.txn.blocks,
        bs,
        c,
    ) by {
        assert(volume::agrees(st, bs, c));
    }
    block_device::lemma_block_at(st.disk, bs, p);
    assert forall|c: u64| #![trigger block_device::block_at(disk, bs, c)]
        block_device::block_at(disk, bs, c) == fs_state::fetched(
        st.disk,
        fs_state::pin(st, p, data).txn.blocks,
        bs,
        c,
    ) by {
        block_device::lemma_block_write_read(st.disk, bs, p, data, c);
        writer::lemma_pin(st.txn.blocks, p, data, c);
        assert(volume::agrees(st, bs, c));
    }
}

/// The record of another inode in a table block stays.
pub proof fn lemma_record_beside(a: Seq<u8>, b: Seq<u8>, sb: Superblock, num: u32, other: u32)
    requires
        volume::same_beside(a, b, sb, num),
        0 <= inode::slot_offset(sb, other),
        inode::slot_offset(sb, other) + 128 <= a.len(),
        inode::slot_offset(sb, num) + 128 <= inode::slot_offset(sb, other) || inode::slot_offset(
            sb,
            other,
        ) + 128 <= inode::slot_offset(sb, num),
    ensures
        ({
            let o = inode::slot_offset(sb, other);
            a.subrange(o, o + 128) == b.subrange(o, o + 128)
        }),
{
    let o = inode::slot_offset(sb, other);
    let x = a.subrange(o, o + 128);
    let y = b.subrange(o, o + 128);
    assert forall|j: int| 0 <= j < 128 implies #[trigger] x[j] == y[j] by {
        assert(a[o + j] == b[o + j]);
    }
    assert(x =~= y);
}

/// Inodes that agree in what a directory's blocks depend on have the same
/// entries.
pub proof fn lemma_entries_of(
    disk: Seq<u8>,
    sb: Superblock,
    i: InodeView,
    j: InodeView,
    l: int,
    n: int,
)
    requires
        i.uses_extents() == j.uses_extents(),
        i.block_data == j.block_data,
    ensures
        dir::entries_from(disk, sb, i, l, n) == dir::entries_from(disk, sb, j, l, n),
    decreases n - l,
{
    if l < n {
        lemma_entries_of(disk, sb, i, j, l + 1, n);
    }
}

/// Whether the blocks of directory `dir_num` are none of those that dropping a
/// link of inode `num` changes, and the two inodes have records of their own.
pub open spec fn out_of_reach(
    st: FsState,
    sb: Superblock,
    dir_num: u32,
    d: nat,
    num: u32,
    dn: nat,
) -> bool {
    let m = inode_map(st.gdt, sb, num);
    let e = volume::extents_now(st, sb, dir_num);
    &&& inode_write::apart(sb, st.gdt, dir_num, num)
    &&& append::bystander(st, sb, num, dn, m)
    &&& append::bystander(st, sb, dir_num, d, m)
    &&& append::unmapped(e, m)
    &&& volume::table_block(st.gdt, sb, dir_num) == volume::table_block(st.gdt, sb, num)
        || append::bystander(st, sb, num, dn, volume::table_block(st.gdt, sb, dir_num))
    &&& forall|b: u64| #[trigger]
        volume::node_block(st, sb, dir_num, d, b) ==> append::bystander(st, sb, num, dn, b)
    &&& forall|l: u64|
        (#[trigger] extent::mapped(e, l)) is Some ==> append::bystander(
            st,
            sb,
            num,
            dn,
            extent::mapped(e, l)->Some_0,
        )
}

/// A pin of a block that is no part of a sound file leaves the file sound.
pub proof fn lemma_pin_beside(st: FsState, sb: Superblock, num: u32, d: nat, p: u64, data: Seq<u8>)
    requires
        volume::sound_file(st, sb, num, d),
        append::bystander(st, sb, num, d, p),
    ensures
        ({
            let s = fs_state::pin(st, p, data);
            &&& volume::sound_file(s, sb, num, d)
            &&& volume::extents_now(s, sb, num) == volume::extents_now(st, sb, num)
            &&& forall|b: u64| #[trigger]
                append::bystander(s, sb, num, d, b) == append::bystander(st, sb, num, d, b)
        }),
{
    let s = fs_state::pin(st, p, data);
    let bs = sb.block_size;
    assert forall|b: u64| #[trigger] volume::used(s, sb, b) == volume::used(st, sb, b) by {
        reveal(volume::used);
    }
    assert forall|b: u64| b != p && volume::agrees(st, bs, b) implies #[trigger] volume::agrees(
        s,
        bs,
        b,
    ) by {
        reveal(volume::agrees);
        writer::lemma_pin(st.txn.blocks, p, data, b);
    }
    volume::lemma_file_stays(st, s, sb, num, d);
}

/// What a directory looks like on a device on which an entry was removed from it,
/// and a link of another inode dropped. Gives where the entry was listed.
#[verifier::rlimit(100)]
proof fn lemma_entry_gone(
    v: VolState,
    sb: Superblock,
    parent: u32,
    d: nat,
    name: Seq<char>,
    num: u32,
    dn: nat,
    disk: Seq<u8>,
) -> (k: int)
    requires
        ({
            let st = requests::at_rest(v);
            let i = volume::inode_now(st, sb, parent);
            let s1 = dir_write::removed(st, sb, st.gdt, parent, name).0;
            &&& volume::sound_file(st, sb, parent, d)
            &&& append::clear_of(st, sb, parent, d, v.w.blocks)
            &&& out_of_reach(st, sb, parent, d, num, dn)
            &&& dir_write::removed(st, sb, st.gdt, parent, name).1 is Ok
            &&& dir::dir_entries(v.disk, sb, i) is Ok
            &&& dirs::all_fit(v.disk, sb, i, dir::dir_blocks(sb, i))
            &&& disk.len() == v.disk.len()
            &&& forall|c: u64| #![trigger block_device::block_at(disk, sb.block_size, c)]
                append::bystander(st, sb, num, dn, c) && c != inode_map(st.gdt, sb, num) && c
                    != volume::table_block(st.gdt, sb, parent) && !v.w.blocks.contains(c)
                    ==> block_device::block_at(disk, sb.block_size, c) == fs_state::fetched(
                    s1.disk,
                    s1.txn.blocks,
                    sb.block_size,
                    c,
                )
        }),
    ensures
        ({
            let st = requests::at_rest(v);
            let i = volume::inode_now(st, sb, parent);
            let e = dir::dir_entries(v.disk, sb, i)->Ok_0;
            &&& 0 <= k < e.len()
            &&& e[k].name == name
            &&& e[k].inode_num == dir_write::removed(st, sb, st.gdt, parent, name).1->Ok_0
            &&& dir::dir_entries(disk, sb, i) == Ok::<Seq<EntryView>, DirError>(e.remove(k))
        }),
{
    let bs = sb.block_size;
    let st = requests::at_rest(v);
    let log = v.w.blocks;
    let i = volume::inode_now(st, sb, parent);
    let n = dir::dir_blocks(sb, i);
    let m = inode_map(st.gdt, sb, num);
    let root = i.block_data;
    assert forall|c: u64| #[trigger] volume::agrees(st, bs, c) by {
        reveal(volume::agrees);
    }
    dirs::lemma_sound_dir(st, sb, parent, d, log);
    dirs::lemma_dir_blocks(sb, i);
    let (l, data) = dirs::lemma_removed_where(st, sb, i, name, 0, n);
    let p = dirs::place(st.disk, sb, i, l)->Ok_0->Some_0;
    let s1 = dir_write::removed(st, sb, st.gdt, parent, name).0;
    assert(s1 == fs_state::pin(st, p, data));
    volume::lemma_extents(st, sb, parent, d);
    dirs::lemma_places(st, sb, i, d, log, st.disk, n);
    lemma_with_block(st, sb, p, data, log);
    let mid = block_device::with_block(st.disk, bs, p, data);
    let k = dirs::law_removed(st, sb, i, d, name, log, st.disk, mid);
    assert forall|b: u64| #[trigger] tree::within(st.disk, bs, root, d, b) implies
        block_device::block_at(disk, bs, b) == block_device::block_at(st.disk, bs, b)
        && block_device::block_at(mid, bs, b) == block_device::block_at(st.disk, bs, b) by {
        assert(volume::node_block(st, sb, parent, d, b));
        assert(append::bystander(st, sb, num, dn, b));
        assert(b != m);
        assert(b != p);
        if log.contains(b) {
            assert(append::bystander(st, sb, parent, d, b));
        }
        writer::lemma_pin(st.txn.blocks, p, data, b);
        reveal(volume::agrees);
        assert(volume::agrees(st, bs, b));
        block_device::lemma_block_write_read(st.disk, bs, p, data, b);
    }
    dirs::lemma_places(st, sb, i, d, log, disk, n);
    dirs::lemma_places(st, sb, i, d, log, mid, n);
    assert forall|x: int|
        0 <= x < n && (#[trigger] dirs::place(mid, sb, i, x)) is Ok && dirs::place(
            mid,
            sb,
            i,
            x,
        )->Ok_0 is Some implies block_device::block_at(
        mid,
        bs,
        dirs::place(mid, sb, i, x)->Ok_0->Some_0,
    ) == block_device::block_at(disk, bs, dirs::place(mid, sb, i, x)->Ok_0->Some_0) by {
        let c = dirs::place(mid, sb, i, x)->Ok_0->Some_0;
        assert(dirs::place(mid, sb, i, x) == dirs::place(st.disk, sb, i, x));
        volume::lemma_seen_block(st, sb, parent, d, Seq::empty(), st.disk, x as u64);
        let e = volume::extents_now(st, sb, parent);
        assert(extent::mapped(e, x as u64) == Some(c));
        assert(append::bystander(st, sb, num, dn, c));
        assert(volume::kept_apart(st, sb, parent, c));
        assert(!log.contains(c));
        assert(c != m);
    }
    assert forall|x: int| 0 <= x < n implies #[trigger] dirs::place(mid, sb, i, x) == dirs::place(
        disk,
        sb,
        i,
        x,
    ) by {
        assert(dirs::place(mid, sb, i, x) == dirs::place(st.disk, sb, i, x));
        assert(dirs::place(disk, sb, i, x) == dirs::place(st.disk, sb, i, x));
    }
    dirs::lemma_same_entries(mid, disk, sb, i, 0, n);
    k
}

/// A file or directory that was deleted goes from the list of its directory,
/// from the place that this gives, and nothing else does: its name is not found
/// any more if it was listed once, and every other name is found as before.
///
/// A file that reaches the last logical block there can be is left out, as it is of
/// cutting a tree.
#[verifier::rlimit(100)]
pub proof fn law_deleted_is_gone(
    v: VolState,
    sb: Superblock,
    parent_path: Seq<char>,
    parent: u32,
    d: nat,
    name: Seq<char>,
    num: u32,
    dn: nat,
    is_dir: bool,
    seconds: Option<u64>,
) -> (k: int)
    requires
        fs_context::resolved(v.disk, sb, v.gdt, parent_path) is Ok,
        fs_context::resolved(v.disk, sb, v.gdt, parent_path)->Ok_0 == parent,
        volume::sound_file(requests::at_rest(v), sb, parent, d),
        volume::sound_file(requests::at_rest(v), sb, num, dn),
        append::clear_of(requests::at_rest(v), sb, parent, d, v.w.blocks),
        out_of_reach(requests::at_rest(v), sb, parent, d, num, dn),
        v.w.bs == sb.block_size,
        tree::end_of(volume::extents_now(requests::at_rest(v), sb, num)) <= u32::MAX,
        ({
            let i = volume::inode_now(requests::at_rest(v), sb, parent);
            &&& dir::dir_entries(v.disk, sb, i) is Ok
            &&& dirs::all_fit(v.disk, sb, i, dir::dir_blocks(sb, i))
        }),
        delete::deleted(v, sb, parent_path, name, num, is_dir, seconds).1 is Ok,
    ensures
        ({
            let e = dir::dir_entries(
                v.disk,
                sb,
                volume::inode_now(requests::at_rest(v), sb, parent),
            )->Ok_0;
            let v2 = delete::deleted(v, sb, parent_path, name, num, is_dir, seconds).0;
            let r = inode::inode_at(v2.disk, sb, v2.gdt, parent);
            &&& 0 <= k < e.len()
            &&& e[k].name == name
            &&& r is Ok
            &&& dir::dir_entries(v2.disk, sb, r->Ok_0) == Ok::<Seq<EntryView>, DirError>(
                e.remove(k),
            )
            &&& listed_once(e, name) ==> {
                &&& dir::first_named(e.remove(k), name) is None
                &&& forall|other: Seq<char>|
                    other != name ==> #[trigger] dir::first_named(e.remove(k), other)
                        == dir::first_named(e, other)
            }
        }),
{
    let bs = sb.block_size;
    let st = requests::at_rest(v);
    let log = v.w.blocks;
    let i = volume::inode_now(st, sb, parent);
    let n = dir::dir_blocks(sb, i);
    let e = dir::dir_entries(v.disk, sb, i)->Ok_0;
    let t = volume::table_block(st.gdt, sb, parent);
    let o = inode::slot_offset(sb, parent);
    let m = inode_map(st.gdt, sb, num);
    let links = delete::last_links(is_dir, volume::inode_now(st, sb, num).links_count);
    requests::lemma_at_rest(v, sb, parent);
    dirs::lemma_sound_dir(st, sb, parent, d, log);
    let (l, data) = dirs::lemma_removed_where(st, sb, i, name, 0, n);
    let p = dirs::place(st.disk, sb, i, l)->Ok_0->Some_0;
    let s1 = dir_write::removed(st, sb, st.gdt, parent, name).0;
    assert(s1 == fs_state::pin(st, p, data));
    volume::lemma_extents(st, sb, parent, d);
    dirs::lemma_dir_blocks(sb, i);
    assert(volume::sees(st, bs, Seq::empty(), st.disk)) by {
        assert forall|c: u64| #![trigger block_device::block_at(st.disk, bs, c)]
            block_device::block_at(st.disk, bs, c) == fs_state::fetched(
            st.disk,
            st.txn.blocks,
            bs,
            c,
        ) by {}
    }
    volume::lemma_seen_block(st, sb, parent, d, Seq::empty(), st.disk, l as u64);
    assert(extent::mapped(volume::extents_now(st, sb, parent), l as u64) == Some(p));
    assert(append::bystander(st, sb, num, dn, p));
    assert(volume::kept_apart(st, sb, parent, p));
    lemma_pin_beside(st, sb, num, dn, p, data);
    pins::lemma_pinned(st, sb, p, data);
    assert(append::bystander(s1, sb, num, dn, m));
    lemma_unlinked(s1, sb, num, dn, links, seconds);
    let s2 = delete::unlinked(s1, sb, num, links, seconds).0;
    lemma_dropped_from(st, s1, s2, sb, parent, d, num, dn, p, data);
    let rec = block_device::block_at(st.disk, bs, t)->Ok_0.subrange(o, o + 128);
    let y = fs_state::fetched(s2.disk, s2.txn.blocks, bs, t)->Ok_0;
    let links2 = inode::inode_at(s2.disk, sb, s2.gdt, parent)->Ok_0.links_count;
    let u = fsp_impl::relink(delete::one_less(links2), seconds);
    let z = bytes::put(y, o, inode_write::updated_record(rec, u));
    let s3 = if is_dir {
        fsp_impl::touched(s2, sb, parent, u).0
    } else {
        s2
    };
    pins::lemma_updated(s2, sb, parent, u);
    inode_write::lemma_updated_record(rec, u);
    let v2 = delete::deleted(v, sb, parent_path, name, num, is_dir, seconds).0;
    assert(v2 == fsp_impl::ended(fs_context::after(v, s3), s3.txn).0);
    lemma_ended(v, s3, sb);
    let disk = v2.disk;
    assert(is_dir ==> s3 == fs_state::pin(s2, t, z));
    assert forall|c: u64| #![trigger block_device::block_at(disk, bs, c)]
        append::bystander(st, sb, num, dn, c) && c != m && c != t && !log.contains(
            c,
        ) implies block_device::block_at(disk, bs, c) == fs_state::fetched(
        s1.disk,
        s1.txn.blocks,
        bs,
        c,
    ) by {
        if is_dir {
            writer::lemma_pin(s2.txn.blocks, t, z, c);
        }
        assert(append::bystander(s1, sb, num, dn, c));
        assert(volume::untouched(s1, s2, bs, c)) by {
            assert(block_device::block_at(s2.disk, bs, c) == block_device::block_at(
                s2.disk,
                bs,
                c,
            ));
        }
    }
    let k = lemma_entry_gone(v, sb, parent, d, name, num, dn, disk);
    if log.contains(t) {
        assert(append::bystander(st, sb, parent, d, t));
    }
    if is_dir {
        writer::lemma_pin(s2.txn.blocks, t, z, t);
        assert(z.subrange(o, o + 128) =~= inode_write::updated_record(rec, u));
    }
    volume::lemma_slot_read(st, sb, parent);
    volume::lemma_inode_seen(s3, sb, parent, log, disk);
    let j = inode::inode_at(disk, sb, v2.gdt, parent)->Ok_0;
    lemma_entries_of(disk, sb, i, j, 0, n);
    if listed_once(e, name) {
        lemma_only_one(e, name, k);
        dirs::law_unlisted_is_not_found(e, k, name);
        assert forall|other: Seq<char>| other != name implies #[trigger] dir::first_named(
            e.remove(k),
            other,
        ) == dir::first_named(e, other) by {
            dirs::law_unlisted_is_not_found(e, k, other);
        }
    }
    k
}

/// Whether no two entries have the name `name`.
pub open spec fn listed_once(e: Seq<EntryView>, name: Seq<char>) -> bool {
    forall|a: int, b: int|
        0 <= a < b < e.len() && (#[trigger] e[a]).name == name ==> (#[trigger] e[b]).name != name
}

/// No other entry has the name of the only one.
pub proof fn lemma_only_one(e: Seq<EntryView>, name: Seq<char>, k: int)
    requires
        listed_once(e, name),
        0 <= k < e.len(),
        e[k].name == name,
    ensures
        forall|j: int| 0 <= j < e.len() && j != k ==> (#[trigger] e[j]).name != e[k].name,
{
    assert forall|j: int| 0 <= j < e.len() && j != k implies (#[trigger] e[j]).name != e[k].name by {
        if j < k {
            assert(e[j].name == name ==> e[k].name != name);
        }
    }
}

/// What the record of a directory's inode reads as after a block of the directory
/// was pinned and a link of another inode dropped.
pub proof fn lemma_dropped_from(
    st: FsState,
    s1: FsState,
    s2: FsState,
    sb: Superblock,
    parent: u32,
    d: nat,
    num: u32,
    dn: nat,
    p: u64,
    data: Seq<u8>,
)
    requires
        volume::sound_file(st, sb, parent, d),
        volume::sound_file(st, sb, num, dn),
        out_of_reach(st, sb, parent, d, num, dn),
        s1 == fs_state::pin(st, p, data),
        volume::kept_apart(st, sb, parent, p),
        append::bystander(st, sb, num, dn, p),
        volume::sound_file(s1, sb, num, dn),
        forall|b: u64| #[trigger]
            append::bystander(s1, sb, num, dn, b) == append::bystander(st, sb, num, dn, b),
        dropped(s1, s2, sb, num, dn),
    ensures
        ({
            let t = volume::table_block(st.gdt, sb, parent);
            let o = inode::slot_offset(sb, parent);
            let x = fs_state::fetched(s2.disk, s2.txn.blocks, sb.block_size, t);
            let rec = block_device::block_at(st.disk, sb.block_size, t)->Ok_0.subrange(o, o + 128);
            &&& x is Ok
            &&& x->Ok_0.len() == sb.block_size
            &&& x->Ok_0.subrange(o, o + 128) == rec
            &&& volume::table_block(s2.gdt, sb, parent) == t
            &&& inode::inode_at(st.disk, sb, st.gdt, parent) == inode::live_inode(rec, parent)
            &&& bytes::le32(rec, 20) == 0
            &&& rec.len() == 128
            &&& 0 <= o
            &&& o + 128 <= sb.block_size
        }),
{
    let bs = sb.block_size;
    let t = volume::table_block(st.gdt, sb, parent);
    let g = inode::group_of(sb, parent);
    volume::lemma_slot_read(st, sb, parent);
    volume::lemma_slot_read(st, sb, num);
    assert(s1.gdt[g].inode_table == s2.gdt[g].inode_table);
    writer::lemma_pin(st.txn.blocks, p, data, t);
    reveal(volume::agrees);
    if t == volume::table_block(st.gdt, sb, num) {
        lemma_record_beside(
            fs_state::fetched(s2.disk, s2.txn.blocks, bs, t)->Ok_0,
            block_device::block_at(st.disk, bs, t)->Ok_0,
            sb,
            num,
            parent,
        );
    } else {
        assert(append::bystander(s1, sb, num, dn, t));
        assert(volume::kept_apart(st, sb, parent, inode_map(st.gdt, sb, num)));
        assert(block_device::block_at(s2.disk, bs, t) == block_device::block_at(s1.disk, bs, t));
        assert(volume::untouched(s1, s2, bs, t));
    }
}

/// Whether block `b` is one that the directory holds, or its inode's.
pub open spec fn held(st: FsState, sb: Superblock, dir_num: u32, d: nat, b: u64) -> bool {
    ||| b == volume::table_block(st.gdt, sb, dir_num)
    ||| volume::node_block(st, sb, dir_num, d, b)
    ||| !append::unmapped(volume::extents_now(st, sb, dir_num), b)
}

/// Whether the bitmaps of used inodes are nothing that the directory holds.
pub open spec fn maps_foreign(st: FsState, sb: Superblock, dir_num: u32, d: nat) -> bool {
    forall|g: int| 0 <= g < st.gdt.len() ==> append::foreign(
        st,
        sb,
        dir_num,
        d,
        (#[trigger] st.gdt[g]).inode_bitmap,
    )
}

/// Whether inode `num` has a record of its own, in the block that holds the
/// directory's or in one that is nothing the directory holds.
pub open spec fn record_apart(
    st: FsState,
    sb: Superblock,
    dir_num: u32,
    d: nat,
    num: u32,
) -> bool {
    let t = volume::table_block(st.gdt, sb, num);
    &&& inode_write::apart(sb, st.gdt, dir_num, num)
    &&& t == volume::table_block(st.gdt, sb, dir_num) || append::foreign(st, sb, dir_num, d, t)
    &&& forall|g: int| 0 <= g < st.gdt.len() ==> (#[trigger] st.gdt[g]).inode_bitmap != t
}

/// What allocating and initialising an inode leaves of a file: all of it.
#[verifier::rlimit(100)]
pub proof fn lemma_inode_made(
    st: FsState,
    sb: Superblock,
    is_dir: bool,
    hint: int,
    parent: u32,
    d: nat,
    mode: u16,
    now: u32,
)
    requires
        0 <= hint,
        volume::sound_file(st, sb, parent, d),
        pins::whole(st, sb),
        forall|c: u64| #[trigger] volume::agrees(st, sb.block_size, c),
        maps_foreign(st, sb, parent, d),
        inode_alloc::allocated(st, sb, is_dir, hint).1 is Ok,
        ({
            let (s1, r1) = inode_alloc::allocated(st, sb, is_dir, hint);
            &&& record_apart(st, sb, parent, d, r1->Ok_0)
            &&& inode_alloc::initialised(s1, sb, r1->Ok_0, mode, 0, 0, now).1 is Ok
        }),
    ensures
        ({
            let (s1, r1) = inode_alloc::allocated(st, sb, is_dir, hint);
            let num = r1->Ok_0;
            let s2 = inode_alloc::initialised(s1, sb, num, mode, 0, 0, now).0;
            let t = volume::table_block(st.gdt, sb, num);
            let o = inode::slot_offset(sb, num);
            let rec = inode_alloc::fresh_record(mode, 0, 0, now);
            let y = block_device::block_at(s2.disk, sb.block_size, t);
            &&& num > 0
            &&& pins::whole(s2, sb)
            &&& volume::later(st, s2, sb)
            &&& forall|c: u64| #[trigger] volume::agrees(s2, sb.block_size, c)
            &&& forall|c: u64| #![trigger block_device::block_at(s2.disk, sb.block_size, c)]
                held(st, sb, parent, d, c) && c != t ==> block_device::block_at(
                    s2.disk,
                    sb.block_size,
                    c,
                ) == block_device::block_at(st.disk, sb.block_size, c)
            &&& inode::inode_at(s2.disk, sb, s2.gdt, parent) == inode::inode_at(
                st.disk,
                sb,
                st.gdt,
                parent,
            )
            &&& y is Ok
            &&& y->Ok_0.len() == sb.block_size
            &&& y->Ok_0.subrange(o, o + 128) == rec
        }),
{
    let bs = sb.block_size;
    volume::lemma_slot_read(st, sb, parent);
    let (s1, r1) = inode_alloc::allocated(st, sb, is_dir, hint);
    let num = r1->Ok_0;
    let (g, k) = allocator::laws::law_inode_allocated(st, sb, is_dir, hint);
    let bm = inode_bitmap::loaded(st.disk, sb, st.gdt, g)->Ok_0;
    let m = st.gdt[g].inode_bitmap;
    let data = bits::with_bit(bm, k);
    block_device::lemma_block_at(st.disk, bs, m);
    assert(append::foreign(st, sb, parent, d, m));
    let sa = fs_state::store(st, bs, m, data).0;
    volume::lemma_stored(st, sb, m, data);
    pins::lemma_stored(st, sb, m, data);
    let dirs = inode_alloc::dirs_of(is_dir);
    let sc = FsState { gdt: s1.gdt, ..sa };
    assert(s1 == block_alloc::tallied(sc, sb, g, dirs).0);
    volume::lemma_tallied(sa, sb, s1.gdt, g, dirs);
    pins::lemma_tallied(sc, sb, g, dirs);
    append::lemma_later(st, sa, s1, sb);
    assert forall|c: u64| #[trigger] volume::agrees(s1, bs, c) by {
        assert(volume::agrees(sa, bs, c));
    }
    volume::lemma_volume_kept(st, s1, sb);
    let t = volume::table_block(st.gdt, sb, num);
    let gn = inode::group_of(sb, num);
    assert(num > 0) by {
        assert(g * sb.inodes_per_group >= 0) by (nonlinear_arith)
            requires
                g >= 0,
                sb.inodes_per_group >= 0,
        ;
    }
    vstd::arithmetic::div_mod::lemma_div_pos_is_pos(num - 1, sb.inodes_per_group as int);
    assert(st.gdt[gn].inode_table == s1.gdt[gn].inode_table);
    assert(volume::table_block(s1.gdt, sb, num) == t);
    let o = inode::slot_offset(sb, num);
    inode::lemma_slot_offset(sb, num);
    let rec = inode_alloc::fresh_record(mode, 0, 0, now);
    assert(rec.len() == 128) by {
        broadcast use bytes::lemma_put_len;

    }
    let x = block_device::block_at(s1.disk, bs, t)->Ok_0;
    block_device::lemma_block_at(s1.disk, bs, t);
    let z = bytes::put(x, o, rec);
    let s2 = fs_state::store(s1, bs, t, z).0;
    assert(!volume::is_group_block(st.gdt, sb, t));
    assert(!volume::is_group_block(s1.gdt, sb, t));
    volume::lemma_stored(s1, sb, t, z);
    pins::lemma_stored(s1, sb, t, z);
    append::lemma_later(st, s1, s2, sb);
    assert(z.subrange(o, o + 128) =~= rec);
    assert forall|c: u64| #![trigger block_device::block_at(s2.disk, bs, c)]
        held(st, sb, parent, d, c) && c != t implies block_device::block_at(
        s2.disk,
        bs,
        c,
    ) == block_device::block_at(st.disk, bs, c) by {
        assert(volume::untouched(s1, s2, bs, c));
        assert(c != m);
        assert(!volume::is_group_block(st.gdt, sb, c));
        assert(block_device::block_at(s1.disk, bs, c) == block_device::block_at(sa.disk, bs, c));
        assert(block_device::block_at(sa.disk, bs, c) == block_device::block_at(st.disk, bs, c));
    }
    let tp = volume::table_block(st.gdt, sb, parent);
    let op = inode::slot_offset(sb, parent);
    assert(tp != m);
    assert(!volume::is_group_block(st.gdt, sb, tp));
    assert(block_device::block_at(s1.disk, bs, tp) == block_device::block_at(sa.disk, bs, tp));
    assert(block_device::block_at(sa.disk, bs, tp) == block_device::block_at(st.disk, bs, tp));
    let gp = inode::group_of(sb, parent);
    assert(st.gdt[gp].inode_table == s2.gdt[gp].inode_table);
    volume::lemma_readable(s2.disk, st.disk, bs, tp);
    volume::lemma_record_in_block(s2.disk, sb, s2.gdt, parent);
    if tp == t {
        let b = block_device::block_at(st.disk, bs, tp)->Ok_0;
        assert(x == b);
        assert(volume::same_beside(z, b, sb, num));
        lemma_record_beside(z, b, sb, num, parent);
    } else {
        assert(volume::untouched(s1, s2, bs, tp));
    }
}

/// Whether an entry can be added to a directory so that it is found: the directory
/// is sound and may grow.
pub open spec fn may_grow(st: FsState, sb: Superblock, dir_num: u32, d: nat) -> bool {
    &&& dirs::sound_dir_file(st, sb, dir_num, d)
    &&& volume::inode_now(st, sb, dir_num).size + sb.block_size <= u64::MAX
    &&& tree::end_of(volume::extents_now(st, sb, dir_num)) < tree::LOGICAL_END
}

/// A file that was created is listed in its directory, at the place that this
/// gives, and nothing else changes there: its name is found, with the number that
/// the request was answered with, and every other name is found as before.
#[verifier::rlimit(100)]
pub proof fn law_created_is_found(
    v: VolState,
    sb: Superblock,
    file_name: Seq<char>,
    parent_path: Seq<char>,
    parent: u32,
    d: nat,
    name: Seq<char>,
    seconds: Option<u64>,
) -> (k: int)
    requires
        create::parted(fsp_impl::volume_path(file_name)) == Some((parent_path, name)),
        fs_context::resolved(v.disk, sb, v.gdt, parent_path) is Ok,
        fs_context::resolved(v.disk, sb, v.gdt, parent_path)->Ok_0 == parent,
        may_grow(requests::at_rest(v), sb, parent, d),
        append::clear_of(requests::at_rest(v), sb, parent, d, v.w.blocks),
        v.w.bs == sb.block_size,
        maps_foreign(requests::at_rest(v), sb, parent, d),
        create::created(v, sb, false, file_name, false, seconds).1 is Ok,
        record_apart(
            requests::at_rest(v),
            sb,
            parent,
            d,
            create::created(v, sb, false, file_name, false, seconds).1->Ok_0.0,
        ),
        !v.w.blocks.contains(
            volume::table_block(
                v.gdt,
                sb,
                create::created(v, sb, false, file_name, false, seconds).1->Ok_0.0,
            ),
        ),
    ensures
        ({
            let e = dir::dir_entries(
                v.disk,
                sb,
                volume::inode_now(requests::at_rest(v), sb, parent),
            )->Ok_0;
            let (v2, r) = create::created(v, sb, false, file_name, false, seconds);
            let (num, i) = r->Ok_0;
            let p = inode::inode_at(v2.disk, sb, v2.gdt, parent);
            let e2 = e.insert(
                k,
                EntryView { inode_num: num, name, file_type: dir::dir_file_type::REG_FILE },
            );
            &&& 0 <= k <= e.len()
            &&& p is Ok
            &&& dir::dir_entries(v2.disk, sb, p->Ok_0) == Ok::<Seq<EntryView>, DirError>(e2)
            &&& dir::first_named(e2, name) == Some(num)
            &&& forall|other: Seq<char>|
                other != name ==> #[trigger] dir::first_named(e2, other) == dir::first_named(
                    e,
                    other,
                )
            &&& inode::inode_at(v2.disk, sb, v2.gdt, num) == Ok::<InodeView, InodeError>(i)
            &&& i == inode::inode_of(
                inode_alloc::fresh_record(create::FILE_MODE, 0, 0, clock::stamp(seconds)),
            )
        }),
{
    let bs = sb.block_size;
    let st = requests::at_rest(v);
    let log = v.w.blocks;
    let i = volume::inode_now(st, sb, parent);
    let n = dir::dir_blocks(sb, i);
    let e = dir::dir_entries(v.disk, sb, i)->Ok_0;
    requests::lemma_at_rest(v, sb, parent);
    assert forall|c: u64| #[trigger] volume::agrees(st, bs, c) by {
        reveal(volume::agrees);
    }
    let now = clock::stamp(seconds);
    let (s1, r1) = inode_alloc::allocated(st, sb, false, inode::group_of(sb, parent));
    let num = r1->Ok_0;
    volume::lemma_slot_read(st, sb, parent);
    lemma_inode_made(
        st,
        sb,
        false,
        inode::group_of(sb, parent),
        parent,
        d,
        create::FILE_MODE,
        now,
    );
    let s2 = inode_alloc::initialised(s1, sb, num, create::FILE_MODE, 0, 0, now).0;
    let t = volume::table_block(st.gdt, sb, num);
    lemma_still_ready(st, s2, sb, parent, d, log, t);
    lemma_same_listing(st, s2, sb, parent, d, log, t);
    let s3 = dir_write::added(
        s2,
        sb,
        s2.gdt,
        parent,
        name,
        num,
        dir::dir_file_type::REG_FILE,
    ).0;
    pins::law_added_whole(s2, sb, parent, name, num, dir::dir_file_type::REG_FILE);
    let (v2, r) = create::created(v, sb, false, file_name, false, seconds);
    assert(v2 == fsp_impl::ended(fs_context::after(v, s3), s3.txn).0);
    lemma_ended(v, s3, sb);
    let k = dirs::law_added(
        s2,
        sb,
        parent,
        d,
        name,
        num,
        dir::dir_file_type::REG_FILE,
        log,
        s2.disk,
        v2.disk,
    );
    volume::lemma_slot_read(s2, sb, parent);
    let g = inode::group_of(sb, parent);
    assert(s2.gdt[g].inode_table == v2.gdt[g].inode_table);
    lemma_new_inode(st, s2, sb, parent, d, num, log, v2.disk, v2.gdt);
    let x = EntryView { inode_num: num, name, file_type: dir::dir_file_type::REG_FILE };
    dirs::law_listed_is_found(e, k, x, name);
    assert forall|other: Seq<char>| other != name implies #[trigger] dir::first_named(
        e.insert(k, x),
        other,
    ) == dir::first_named(e, other) by {
        dirs::law_listed_is_found(e, k, x, other);
    }
    k
}

/// Where the record of an inode that can be read lies.
pub proof fn lemma_slot_bounds(disk: Seq<u8>, sb: Superblock, gdt: Seq<GroupDesc>, num: u32)
    requires
        sb.wf(),
        inode::inode_at(disk, sb, gdt, num) is Ok,
    ensures
        num > 0,
        0 <= inode::group_of(sb, num) < gdt.len(),
        gdt[inode::group_of(sb, num)].inode_table + inode::index_of(sb, num)
            / inode::inodes_per_block(sb) <= u64::MAX,
        inode::slot_byte(sb, gdt[inode::group_of(sb, num)], num) <= u64::MAX,
{
    let bs = sb.block_size;
    vstd::arithmetic::div_mod::lemma_div_pos_is_pos(num - 1, sb.inodes_per_group as int);
    inode::lemma_slot_offset(sb, num);
    let table = gdt[inode::group_of(sb, num)].inode_table;
    let k = inode::index_of(sb, num);
    vstd::arithmetic::div_mod::lemma_div_is_ordered_by_denominator(
        k,
        1,
        inode::inodes_per_block(sb),
    );
    assert(table * 512 <= table * bs) by (nonlinear_arith)
        requires
            bs >= 512,
    ;
    assert(k * sb.inode_size >= 0) by (nonlinear_arith)
        requires
            k >= 0,
    ;
}

/// The record of a new inode is on the device after its entry was added.
proof fn lemma_new_inode(
    st: FsState,
    s: FsState,
    sb: Superblock,
    parent: u32,
    d: nat,
    num: u32,
    log: Seq<u64>,
    disk: Seq<u8>,
    gdt: Seq<GroupDesc>,
)
    requires
        volume::sound_file(s, sb, parent, d),
        volume::later(st, s, sb),
        forall|c: u64| #[trigger] volume::agrees(s, sb.block_size, c),
        volume::extents_now(s, sb, parent) == volume::extents_now(st, sb, parent),
        forall|b: u64| append::bystander(st, sb, parent, d, b) ==> #[trigger] append::bystander(
            s,
            sb,
            parent,
            d,
            b,
        ),
        record_apart(st, sb, parent, d, num),
        !log.contains(volume::table_block(st.gdt, sb, num)),
        volume::same_layout(s.gdt, gdt),
        inode::inode_at(disk, sb, gdt, num) is Ok,
        volume::record_changed_on(s, disk, sb, parent),
        forall|b: u64| #![trigger block_device::block_at(disk, sb.block_size, b)]
            append::foreign(s, sb, parent, d, b) && !log.contains(b) ==> block_device::block_at(
                disk,
                sb.block_size,
                b,
            ) == fs_state::fetched(s.disk, s.txn.blocks, sb.block_size, b),
        block_device::block_at(
            s.disk,
            sb.block_size,
            volume::table_block(st.gdt, sb, num),
        ) is Ok,
    ensures
        ({
            let o = inode::slot_offset(sb, num);
            let y = block_device::block_at(
                s.disk,
                sb.block_size,
                volume::table_block(st.gdt, sb, num),
            )->Ok_0;
            inode::inode_at(disk, sb, gdt, num) == Ok::<InodeView, InodeError>(
                inode::inode_of(y.subrange(o, o + 128)),
            )
        }),
{
    let bs = sb.block_size;
    let t = volume::table_block(st.gdt, sb, num);
    let g = inode::group_of(sb, num);
    lemma_slot_bounds(disk, sb, gdt, num);
    assert(s.gdt[g].inode_table == gdt[g].inode_table);
    assert(st.gdt[g].inode_table == s.gdt[g].inode_table);
    inode::lemma_slot_offset(sb, num);
    volume::lemma_slot_read(s, sb, parent);
    let y = block_device::block_at(s.disk, bs, t)->Ok_0;
    reveal(volume::agrees);
    assert(volume::agrees(s, bs, t));
    if t == volume::table_block(st.gdt, sb, parent) {
        let gp = inode::group_of(sb, parent);
        assert(st.gdt[gp].inode_table == s.gdt[gp].inode_table);
        assert(volume::table_block(s.gdt, sb, parent) == t);
        block_device::lemma_block_at(disk, bs, t);
        lemma_record_beside(block_device::block_at(disk, bs, t)->Ok_0, y, sb, parent, num);
    } else {
        assert(append::bystander(st, sb, parent, d, t));
        assert(append::bystander(s, sb, parent, d, t));
        assert(append::foreign(s, sb, parent, d, t));
        assert(block_device::block_at(disk, bs, t) == block_device::block_at(s.disk, bs, t));
    }
    volume::lemma_record_in_block(disk, sb, gdt, num);
}

/// An entry can still be added to a directory none of whose blocks changed.
pub proof fn lemma_still_ready(
    st: FsState,
    s: FsState,
    sb: Superblock,
    parent: u32,
    d: nat,
    log: Seq<u64>,
    t: u64,
)
    requires
        may_grow(st, sb, parent, d),
        append::clear_of(st, sb, parent, d, log),
        volume::later(st, s, sb),
        inode::inode_at(s.disk, sb, s.gdt, parent) == inode::inode_at(
            st.disk,
            sb,
            st.gdt,
            parent,
        ),
        t == volume::table_block(st.gdt, sb, parent) || append::foreign(st, sb, parent, d, t),
        forall|c: u64| #[trigger] volume::agrees(s, sb.block_size, c),
        forall|c: u64| #![trigger block_device::block_at(s.disk, sb.block_size, c)]
            held(st, sb, parent, d, c) && c != t ==> block_device::block_at(
                s.disk,
                sb.block_size,
                c,
            ) == block_device::block_at(st.disk, sb.block_size, c),
    ensures
        may_grow(s, sb, parent, d),
        append::clear_of(s, sb, parent, d, log),
        volume::inode_now(s, sb, parent) == volume::inode_now(st, sb, parent),
        volume::sees(s, sb.block_size, log, s.disk),
        volume::extents_now(s, sb, parent) == volume::extents_now(st, sb, parent),
        forall|b: u64| append::bystander(st, sb, parent, d, b) ==> #[trigger] append::bystander(
            s,
            sb,
            parent,
            d,
            b,
        ),
{
    let bs = sb.block_size;
    assert forall|b: u64| #[trigger] volume::node_block(st, sb, parent, d, b) implies
        block_device::block_at(s.disk, bs, b) == block_device::block_at(st.disk, bs, b)
        && volume::agrees(s, bs, b) by {
        assert(held(st, sb, parent, d, b));
        assert(volume::kept_apart(st, sb, parent, b));
    }
    volume::lemma_file_stays(st, s, sb, parent, d);
    assert forall|b: u64| #[trigger] log.contains(b) implies append::bystander(
        s,
        sb,
        parent,
        d,
        b,
    ) && append::unmapped(volume::extents_now(s, sb, parent), b) by {
        assert(append::bystander(st, sb, parent, d, b));
        assert(volume::kept_apart(s, sb, parent, b));
    }
    assert forall|b: u64| append::bystander(
        st,
        sb,
        parent,
        d,
        b,
    ) implies #[trigger] append::bystander(
        s,
        sb,
        parent,
        d,
        b,
    ) by {
        assert(volume::kept_apart(s, sb, parent, b));
    }
    assert forall|c: u64| #![trigger block_device::block_at(s.disk, bs, c)]
        block_device::block_at(s.disk, bs, c) == fs_state::fetched(
        s.disk,
        s.txn.blocks,
        bs,
        c,
    ) by {
        assert(volume::agrees(s, bs, c));
        reveal(volume::agrees);
    }
}

/// A directory whose blocks did not change lists the same.
pub proof fn lemma_same_listing(
    st: FsState,
    s: FsState,
    sb: Superblock,
    parent: u32,
    d: nat,
    log: Seq<u64>,
    t: u64,
)
    requires
        volume::sound_file(st, sb, parent, d),
        append::clear_of(st, sb, parent, d, log),
        s.disk.len() == st.disk.len(),
        t == volume::table_block(st.gdt, sb, parent) || append::foreign(st, sb, parent, d, t),
        forall|c: u64| #![trigger block_device::block_at(s.disk, sb.block_size, c)]
            held(st, sb, parent, d, c) && c != t ==> block_device::block_at(
                s.disk,
                sb.block_size,
                c,
            ) == block_device::block_at(st.disk, sb.block_size, c),
    ensures
        ({
            let i = volume::inode_now(st, sb, parent);
            dir::dir_entries(s.disk, sb, i) == dir::dir_entries(st.disk, sb, i)
        }),
{
    let bs = sb.block_size;
    let i = volume::inode_now(st, sb, parent);
    let e = volume::extents_now(st, sb, parent);
    let n = dir::dir_blocks(sb, i);
    dirs::lemma_sound_dir(st, sb, parent, d, log);
    dirs::lemma_dir_blocks(sb, i);
    assert forall|b: u64| #[trigger] tree::within(st.disk, bs, i.block_data, d, b) implies
        block_device::block_at(s.disk, bs, b) == block_device::block_at(st.disk, bs, b) by {
        assert(volume::node_block(st, sb, parent, d, b));
        assert(held(st, sb, parent, d, b));
        assert(volume::kept_apart(st, sb, parent, b));
    }
    dirs::lemma_places(st, sb, i, d, log, s.disk, n);
    assert forall|x: int|
        0 <= x < n && (#[trigger] dirs::place(s.disk, sb, i, x)) is Ok && dirs::place(
            s.disk,
            sb,
            i,
            x,
        )->Ok_0 is Some implies block_device::block_at(
        s.disk,
        bs,
        dirs::place(s.disk, sb, i, x)->Ok_0->Some_0,
    ) == block_device::block_at(st.disk, bs, dirs::place(s.disk, sb, i, x)->Ok_0->Some_0) by {
        let c = dirs::place(s.disk, sb, i, x)->Ok_0->Some_0;
        assert(dirs::place(s.disk, sb, i, x) == dirs::place(st.disk, sb, i, x));
        data::lemma_found(st, sb, parent, d, x as u64);
        assert(extent::mapped(e, x as u64) == Some(c));
        assert(held(st, sb, parent, d, c));
        assert(volume::kept_apart(st, sb, parent, c));
    }
    dirs::lemma_same_entries(s.disk, st.disk, sb, i, 0, n);
}

} // verus!
