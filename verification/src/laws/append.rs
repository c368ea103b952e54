//! What appending blocks to a file's tree keeps, and what it adds.
use vstd::prelude::*;
use super::insert;
use super::nodes;
use super::tree;
use super::volume;
use crate::allocator::block_alloc;
use crate::block_device;
use crate::block_device::BlockDeviceError;
use crate::bytes;
use crate::extent;
use crate::extent::{ExtentError, ExtentLeaf, MAX_INIT_LEN};
use crate::extent_insert;
use crate::extent_write;
use crate::extent_write::ExtentWriteError;
use crate::fs_state;
use crate::fs_state::FsState;
use crate::inode;
use crate::inode::InodeView;
use crate::superblock::Superblock;

verus! {

/// Whether none of the extents maps block `b`.
pub open spec fn unmapped(v: Seq<ExtentLeaf>, b: u64) -> bool {
    forall|l: u64| (#[trigger] extent::mapped(v, l)) != Some(b)
}

/// Whether the `count` blocks from `phys` on are used, and by nothing that the
/// file holds.
pub open spec fn ready(
    st: FsState,
    sb: Superblock,
    num: u32,
    d: nat,
    phys: u64,
    count: int,
) -> bool {
    &&& phys + count <= volume::BLOCK_END
    &&& forall|b: u64|
        phys <= b < phys + count ==> #[trigger] volume::kept_apart(st, sb, num, b)
            && !volume::node_block(st, sb, num, d, b) && unmapped(
            volume::extents_now(st, sb, num),
            b,
        )
}

/// Whether block `b` is one that an append does not touch: it is used, and is
/// neither a group's, nor the file's inode, nor in its tree.
pub open spec fn bystander(st: FsState, sb: Superblock, num: u32, d: nat, b: u64) -> bool {
    volume::kept_apart(st, sb, num, b) && !volume::node_block(st, sb, num, d, b)
}

/// Whether block `b` is used, and by nothing that the file holds.
pub open spec fn foreign(st: FsState, sb: Superblock, num: u32, d: nat, b: u64) -> bool {
    bystander(st, sb, num, d, b) && unmapped(volume::extents_now(st, sb, num), b)
}

/// Whether the journal's blocks `log` are used, and by nothing that the file
/// holds.
pub open spec fn clear_of(
    st: FsState,
    sb: Superblock,
    num: u32,
    d: nat,
    log: Seq<u64>,
) -> bool {
    forall|b: u64| #[trigger]
        log.contains(b) ==> bystander(st, sb, num, d, b) && unmapped(
            volume::extents_now(st, sb, num),
            b,
        )
}

/// Whether `s` is `st` with `count` blocks from `phys` on appended to the file:
/// it is sound, at depth `d2`, it maps them behind what it mapped before, and
/// nothing else of the inode or of what was used changed.
pub open spec fn grew(
    st: FsState,
    s: FsState,
    sb: Superblock,
    num: u32,
    d: nat,
    d2: nat,
    phys: u64,
    count: int,
) -> bool {
    &&& volume::sound_file(s, sb, num, d2)
    &&& volume::later(st, s, sb)
    &&& volume::table_block(s.gdt, sb, num) == volume::table_block(st.gdt, sb, num)
    &&& volume::record_changed(st, s, sb, num)
    &&& nodes::extends(
        volume::extents_now(st, sb, num),
        volume::extents_now(s, sb, num),
        phys,
        count,
    )
    &&& volume::inode_now(s, sb, num) == (InodeView {
        block_data: volume::inode_now(s, sb, num).block_data,
        ..volume::inode_now(st, sb, num)
    })
    &&& forall|b: u64| #[trigger]
        bystander(st, sb, num, d, b) ==> volume::untouched(st, s, sb.block_size, b) && bystander(
            s,
            sb,
            num,
            d2,
            b,
        )
}

/// The record of an inode with another root, and more blocks.
proof fn lemma_record(rec: Seq<u8>, root: Seq<u8>, sb: Superblock, count: u16)
    requires
        rec.len() == 128,
        root.len() == 60,
    ensures
        ({
            let r1 = extent_write::with_root(rec, root);
            let r2 = extent_write::with_more_blocks(r1, sb, count);
            &&& r1.len() == 128
            &&& r2.len() == 128
            &&& bytes::le32(r1, 20) == bytes::le32(rec, 20)
            &&& bytes::le32(r2, 20) == bytes::le32(rec, 20)
            &&& inode::inode_of(r1) == (InodeView { block_data: root, ..inode::inode_of(rec) })
            &&& inode::inode_of(r2) == (InodeView { block_data: root, ..inode::inode_of(rec) })
            &&& extent_write::root_of(r1) == root
        }),
{
    broadcast use crate::bytes::group_codec;

    let r1 = extent_write::with_root(rec, root);
    let r2 = extent_write::with_more_blocks(r1, sb, count);
    assert(r1.subrange(40, 100) =~= root);
    assert(r2.subrange(40, 100) =~= root);
}

/// Putting a root where it already is changes nothing.
pub proof fn lemma_same_root(rec: Seq<u8>)
    requires
        rec.len() == 128,
    ensures
        extent_write::with_root(rec, extent_write::root_of(rec)) == rec,
        extent_write::root_of(rec) == inode::inode_of(rec).block_data,
        extent_write::root_of(rec).len() == 60,
{
    assert(extent_write::with_root(rec, extent_write::root_of(rec)) =~= rec);
}

/// The last step of an append: the record is written through.
#[verifier::rlimit(100)]
proof fn lemma_finish(
    st: FsState,
    s1: FsState,
    sb: Superblock,
    num: u32,
    d: nat,
    d2: nat,
    rec: Seq<u8>,
    phys: u64,
    count: int,
)
    requires
        volume::sound_file(st, sb, num, d),
        ready(st, sb, num, d, phys, count),
        count > 0,
        volume::later(st, s1, sb),
        volume::sound_volume(s1, sb),
        volume::sound_slot(s1, sb, num),
        volume::table_block(s1.gdt, sb, num) == volume::table_block(st.gdt, sb, num),
        volume::record_changed(st, s1, sb, num),
        rec.len() == 128,
        bytes::le32(rec, 20) == 0,
        inode::inode_of(rec) == (InodeView {
            block_data: inode::inode_of(rec).block_data,
            ..volume::inode_now(st, sb, num)
        }),
        extent_write::flushed(s1, sb, num, rec).1 is Ok,
        tree::sound(
            s1.disk,
            sb.block_size,
            inode::inode_of(rec).block_data,
            d2,
            0,
            tree::LOGICAL_END as int,
        ),
        nodes::extends(
            volume::extents_now(st, sb, num),
            extent::tree_leaves(
                s1.disk,
                sb.block_size,
                inode::inode_of(rec).block_data,
                block_device::sectors(s1.disk) as nat,
            )->Ok_0,
            phys,
            count,
        ),
        forall|b: u64| #[trigger]
            tree::within(s1.disk, sb.block_size, inode::inode_of(rec).block_data, d2, b)
                ==> volume::agrees(s1, sb.block_size, b) && volume::kept_apart(s1, sb, num, b) && (
            volume::node_block(st, sb, num, d, b) || !volume::used(st, sb, b)),
        forall|b: u64| #[trigger]
            bystander(st, sb, num, d, b) ==> volume::untouched(st, s1, sb.block_size, b),
    ensures
        grew(st, extent_write::flushed(s1, sb, num, rec).0, sb, num, d, d2, phys, count),
{
    let bs = sb.block_size;
    let s = extent_write::flushed(s1, sb, num, rec).0;
    let t = volume::table_block(st.gdt, sb, num);
    let root = inode::inode_of(rec).block_data;
    let hops = block_device::sectors(s1.disk) as nat;
    let end = tree::LOGICAL_END as int;
    volume::lemma_flushed(s1, sb, num, rec);
    volume::lemma_volume_kept(st, s1, sb);
    assert(extent::header(root).eh_depth == d2);
    assert forall|b: u64| #[trigger]
        tree::within(s1.disk, bs, root, d2, b) implies block_device::block_at(s.disk, bs, b)
        == block_device::block_at(s1.disk, bs, b) by {}
    tree::law_depends_on_nodes(s1.disk, s.disk, bs, root, d2, 0, end, hops);
    assert(volume::inode_now(s, sb, num) == inode::inode_of(rec));
    let v = volume::extents_now(st, sb, num);
    let w = volume::extents_now(s, sb, num);
    assert(w == extent::tree_leaves(s1.disk, bs, root, hops)->Ok_0);
    assert forall|b: u64| #[trigger] volume::node_block(s, sb, num, d2, b) implies tree::within(
        s1.disk,
        bs,
        root,
        d2,
        b,
    ) && volume::kept_apart(s, sb, num, b) && volume::agrees(s, bs, b) by {
        assert(tree::within(s.disk, bs, root, d2, b));
        assert(tree::within(s1.disk, bs, root, d2, b));
        assert(volume::used(s, sb, b));
    }
    assert forall|b: u64| #[trigger] bystander(st, sb, num, d, b) implies volume::untouched(
        st,
        s,
        bs,
        b,
    ) && bystander(s, sb, num, d2, b) by {
        assert(volume::used(s1, sb, b));
        assert(volume::used(s, sb, b));
        assert(block_device::block_at(s.disk, bs, b) == block_device::block_at(s1.disk, bs, b));
    }
    assert forall|l: u64| (#[trigger] extent::mapped(w, l)) is Some implies volume::kept_apart(
        s,
        sb,
        num,
        extent::mapped(w, l)->Some_0,
    ) && !volume::node_block(s, sb, num, d2, extent::mapped(w, l)->Some_0) by {
        lemma_mapped_is_held(st, sb, num, d, v, w, phys, count, l);
        assert(bystander(st, sb, num, d, extent::mapped(w, l)->Some_0));
    }
    assert forall|l: u64, m: u64|
        (#[trigger] extent::mapped(w, l)) is Some && l != m implies extent::mapped(w, l)
        != #[trigger] extent::mapped(w, m) by {
        lemma_mapped_is_held(st, sb, num, d, v, w, phys, count, l);
        lemma_mapped_apart(st, sb, num, d, v, w, phys, count, l, m);
    }
}

/// What the longer list maps was mapped before, or is appended: either way it
/// is no part of the tree.
proof fn lemma_mapped_is_held(
    st: FsState,
    sb: Superblock,
    num: u32,
    d: nat,
    v: Seq<ExtentLeaf>,
    w: Seq<ExtentLeaf>,
    phys: u64,
    count: int,
    l: u64,
)
    requires
        volume::sound_file(st, sb, num, d),
        v == volume::extents_now(st, sb, num),
        ready(st, sb, num, d, phys, count),
        nodes::extends(v, w, phys, count),
        extent::mapped(w, l) is Some,
    ensures
        bystander(st, sb, num, d, extent::mapped(w, l)->Some_0),
{
    let b = extent::mapped(w, l)->Some_0;
    if tree::end_of(v) <= l < tree::end_of(v) + count {
        assert(phys <= b < phys + count);
        assert(volume::kept_apart(st, sb, num, b));
    } else {
        assert(extent::mapped(v, l) is Some);
    }
}

proof fn lemma_mapped_apart(
    st: FsState,
    sb: Superblock,
    num: u32,
    d: nat,
    v: Seq<ExtentLeaf>,
    w: Seq<ExtentLeaf>,
    phys: u64,
    count: int,
    l: u64,
    m: u64,
)
    requires
        volume::sound_file(st, sb, num, d),
        v == volume::extents_now(st, sb, num),
        ready(st, sb, num, d, phys, count),
        nodes::extends(v, w, phys, count),
        extent::mapped(w, l) is Some,
        l != m,
    ensures
        extent::mapped(w, l) != extent::mapped(w, m),
{
    let e = tree::end_of(v);
    let x = extent::mapped(w, l);
    let y = extent::mapped(w, m);
    if e <= l < e + count {
        assert(volume::kept_apart(st, sb, num, x->Some_0));
        if !(e <= m < e + count) {
            assert(extent::mapped(v, m) != Some(x->Some_0));
        }
    } else {
        assert(extent::mapped(v, l) == x);
        if e <= m < e + count {
            assert(volume::kept_apart(st, sb, num, y->Some_0));
            assert(extent::mapped(v, l) != Some(y->Some_0));
        } else {
            assert(extent::mapped(v, m) == y);
        }
    }
}

/// Appending to a root that is a leaf, and has room or whose last extent can be
/// made longer.
proof fn lemma_flat(
    st: FsState,
    sb: Superblock,
    num: u32,
    rec: Seq<u8>,
    root2: Seq<u8>,
    phys: u64,
    count: u16,
)
    requires
        volume::sound_file(st, sb, num, 0),
        extent_write::opened(st, sb, num) == Ok::<Seq<u8>, ExtentWriteError>(rec),
        ready(st, sb, num, 0, phys, count as int),
        count > 0,
        root2.len() == 60,
        tree::sound_node(root2, 0),
        tree::in_range(extent::node_leaves(root2), 0, tree::LOGICAL_END as int),
        nodes::extends(
            extent::node_leaves(extent_write::root_of(rec)),
            extent::node_leaves(root2),
            phys,
            count as int,
        ),
        extent_write::flushed(
            st,
            sb,
            num,
            extent_write::with_more_blocks(extent_write::with_root(rec, root2), sb, count),
        ).1 is Ok,
    ensures
        grew(
            st,
            extent_write::flushed(
                st,
                sb,
                num,
                extent_write::with_more_blocks(extent_write::with_root(rec, root2), sb, count),
            ).0,
            sb,
            num,
            0,
            0,
            phys,
            count as int,
        ),
{
    volume::lemma_slot_read(st, sb, num);
    lemma_same_root(rec);
    lemma_record(rec, root2, sb, count);
    let rec2 = extent_write::with_more_blocks(extent_write::with_root(rec, root2), sb, count);
    volume::lemma_extents(st, sb, num, 0);
    assert(volume::extents_now(st, sb, num) == extent::node_leaves(extent_write::root_of(rec)));
    lemma_finish(st, st, sb, num, 0, 0, rec2, phys, count as int);
}

/// Rewriting the rightmost leaf node so that it maps more.
#[verifier::rlimit(100)]
proof fn lemma_edge(
    st: FsState,
    sb: Superblock,
    num: u32,
    d: nat,
    rec: Seq<u8>,
    at: u64,
    leaf: Seq<u8>,
    phys: u64,
    count: u16,
)
    requires
        volume::sound_file(st, sb, num, d),
        d > 0,
        extent_write::opened(st, sb, num) == Ok::<Seq<u8>, ExtentWriteError>(rec),
        ready(st, sb, num, d, phys, count as int),
        count > 0,
        extent_write::rightmost(
            st.disk,
            sb.block_size,
            extent_write::root_of(rec),
            d,
        ) == Ok::<u64, ExtentWriteError>(at),
        leaf.len() == sb.block_size,
        tree::sound_node(leaf, 0),
        ({
            let before = extent::node_leaves(
                block_device::block_at(st.disk, sb.block_size, at)->Ok_0,
            );
            let after = extent::node_leaves(leaf);
            &&& tree::inhabited(leaf)
            &&& tree::in_range(after, before[0].ee_block as int, tree::LOGICAL_END as int)
            &&& nodes::extends(before, after, phys, count as int)
        }),
        extent_write::wrote(st, sb, at, leaf).1 is Ok,
        extent_write::flushed(
            extent_write::wrote(st, sb, at, leaf).0,
            sb,
            num,
            extent_write::with_more_blocks(rec, sb, count),
        ).1 is Ok,
    ensures
        grew(
            st,
            extent_write::flushed(
                extent_write::wrote(st, sb, at, leaf).0,
                sb,
                num,
                extent_write::with_more_blocks(rec, sb, count),
            ).0,
            sb,
            num,
            d,
            d,
            phys,
            count as int,
        ),
{
    let bs = sb.block_size;
    let root = extent_write::root_of(rec);
    let end = tree::LOGICAL_END as int;
    let hops = block_device::sectors(st.disk) as nat;
    volume::lemma_slot_read(st, sb, num);
    lemma_same_root(rec);
    lemma_record(rec, root, sb, count);
    volume::lemma_extents(st, sb, num, d);
    let s1 = extent_write::wrote(st, sb, at, leaf).0;
    let pre = tree::law_right_edge(st.disk, s1.disk, bs, root, d, 0, end, hops, at);
    assert(volume::node_block(st, sb, num, d, at));
    volume::lemma_stored(st, sb, at, leaf);
    volume::lemma_slot_kept(st, s1, sb, num);
    let before = extent::node_leaves(block_device::block_at(st.disk, bs, at)->Ok_0);
    let after = extent::node_leaves(leaf);
    assert forall|b: u64| #[trigger]
        tree::within(st.disk, bs, root, d, b) && b != at implies block_device::block_at(
        s1.disk,
        bs,
        b,
    ) == block_device::block_at(st.disk, bs, b) by {}
    nodes::lemma_extends_behind(pre, before, after, end, phys, count as int);
    assert forall|b: u64| #[trigger] tree::within(s1.disk, bs, root, d, b) implies volume::agrees(
        s1,
        bs,
        b,
    ) && volume::kept_apart(s1, sb, num, b) && (volume::node_block(st, sb, num, d, b)
        || !volume::used(st, sb, b)) by {
        assert(tree::within(s1.disk, bs, root, d, b) == tree::within(st.disk, bs, root, d, b));
        assert(volume::node_block(st, sb, num, d, b));
        assert(volume::used(s1, sb, b));
    }
    lemma_finish(
        st,
        s1,
        sb,
        num,
        d,
        d,
        extent_write::with_more_blocks(rec, sb, count),
        phys,
        count as int,
    );
}

/// A leaf node with an extent added, or with its last extent made longer,
/// extends what it mapped.
proof fn lemma_leaf_grown(node: Seq<u8>, lo: int, phys: u64, count: u16)
    requires
        tree::sound_node(node, 0),
        tree::in_range(extent::node_leaves(node), lo, tree::LOGICAL_END as int),
        extent::header(node).eh_entries > 0 || lo == 0,
        0 <= lo,
        0 < count <= MAX_INIT_LEN,
        phys + count <= volume::BLOCK_END,
        tree::end_of(extent::node_leaves(node)) + count <= tree::LOGICAL_END,
    ensures
        match extent_write::coalesced(node, phys, count) {
            Some(node2) => {
                &&& tree::sound_node(node2, 0)
                &&& node2.len() == node.len()
                &&& extent::node_leaves(node2).len() > 0
                &&& extent::header(node2) == extent::header(node)
                &&& tree::in_range(extent::node_leaves(node2), lo, tree::LOGICAL_END as int)
                &&& nodes::extends(
                    extent::node_leaves(node),
                    extent::node_leaves(node2),
                    phys,
                    count as int,
                )
            },
            None => extent::header(node).eh_entries < extent::header(node).eh_max ==> {
                let node2 = extent_write::with_leaf(
                    node,
                    extent::header(node),
                    extent_write::leaf_bytes(extent_write::next_logical(node), count, phys),
                );
                &&& tree::sound_node(node2, 0)
                &&& node2.len() == node.len()
                &&& extent::node_leaves(node2).len() > 0
                &&& extent::header(node2).eh_entries == extent::header(node).eh_entries + 1
                &&& extent::header(node2).eh_max == extent::header(node).eh_max
                &&& tree::in_range(extent::node_leaves(node2), lo, tree::LOGICAL_END as int)
                &&& nodes::extends(
                    extent::node_leaves(node),
                    extent::node_leaves(node2),
                    phys,
                    count as int,
                )
            },
        },
{
    let v = extent::node_leaves(node);
    let n = extent::header(node).eh_entries as int;
    let end = tree::LOGICAL_END as int;
    if n > 0 {
        assert(v.last() == extent::leaf_at(node, extent::entry_offset(n - 1)));
        assert(v[n - 1].ee_block + v[n - 1].blocks() <= end);
    }
    match extent_write::coalesced(node, phys, count) {
        Some(node2) => {
            nodes::lemma_coalesced(node, phys, count);
            nodes::lemma_longer(v, lo, end, phys, count);
        },
        None => {
            if n < extent::header(node).eh_max {
                let leaf = nodes::lemma_with_leaf(
                    node,
                    extent_write::next_logical(node),
                    count,
                    phys,
                );
                nodes::lemma_pushed(v, lo, end, leaf);
            }
        },
    }
}

/// What comes later than something later is later.
pub proof fn lemma_later(a: FsState, b: FsState, c: FsState, sb: Superblock)
    requires
        volume::later(a, b, sb),
        volume::later(b, c, sb),
    ensures
        volume::later(a, c, sb),
{
    assert forall|x: u64| volume::used(a, sb, x) implies #[trigger] volume::used(c, sb, x) by {
        assert(volume::used(b, sb, x));
    }
    assert forall|g: int| #![trigger a.gdt[g]] #![trigger c.gdt[g]]
        0 <= g < a.gdt.len() implies a.gdt[g].block_bitmap == c.gdt[g].block_bitmap
        && a.gdt[g].inode_table == c.gdt[g].inode_table by {
        assert(a.gdt[g].block_bitmap == b.gdt[g].block_bitmap);
    }
}

/// Whether `s` is `st` with one more block, `fresh`, taken, and, but for groups'
/// blocks and the inode's, nothing else different than that block and `at`.
spec fn took_one(
    st: FsState,
    s: FsState,
    sb: Superblock,
    num: u32,
    fresh: u64,
    at: u64,
) -> bool {
    &&& volume::record_changed(st, s, sb, num)
    &&& volume::later(st, s, sb)
    &&& volume::sound_volume(s, sb)
    &&& volume::sound_slot(s, sb, num)
    &&& volume::table_block(s.gdt, sb, num) == volume::table_block(st.gdt, sb, num)
    &&& fresh < volume::BLOCK_END
    &&& volume::kept_apart(s, sb, num, fresh)
    &&& !volume::used(st, sb, fresh)
    &&& forall|c: u64| #![trigger block_device::block_at(s.disk, sb.block_size, c)]
        !volume::is_group_block(st.gdt, sb, c) && c != fresh && c != at && c != volume::table_block(
            st.gdt,
            sb,
            num,
        ) ==> volume::untouched(st, s, sb.block_size, c)
    &&& forall|c: u64|
        volume::agrees(st, sb.block_size, c) && c != fresh && c != at ==> #[trigger] volume::agrees(
            s,
            sb.block_size,
            c,
        )
}

/// Allocating a block for a node.
#[verifier::rlimit(100)]
proof fn lemma_take_one(st: FsState, sb: Superblock, num: u32, d: nat, hint: u64)
    requires
        volume::sound_file(st, sb, num, d),
        block_alloc::allocated(st, sb, 1, hint).1 is Ok,
    ensures
        ({
            let (s, r) = block_alloc::allocated(st, sb, 1, hint);
            &&& took_one(st, s, sb, num, r->Ok_0, r->Ok_0)
            &&& !volume::node_block(st, sb, num, d, r->Ok_0)
            &&& block_device::block_at(
                s.disk,
                sb.block_size,
                volume::table_block(st.gdt, sb, num),
            ) == block_device::block_at(
                st.disk,
                sb.block_size,
                volume::table_block(st.gdt, sb, num),
            )
            &&& inode::inode_at(s.disk, sb, s.gdt, num) == inode::inode_at(
                st.disk,
                sb,
                st.gdt,
                num,
            )
        }),
{
    let (s, r) = block_alloc::allocated(st, sb, 1, hint);
    let fresh = r->Ok_0;
    volume::lemma_allocated(st, sb, 1, hint);
    volume::lemma_slot_kept(st, s, sb, num);
    volume::lemma_volume_kept(st, s, sb);
    assert(volume::used(s, sb, fresh));
    assert(!volume::is_group_block(st.gdt, sb, fresh)) by {
        reveal(volume::is_group_block);
        if volume::is_group_block(st.gdt, sb, fresh) {
            let g = choose|g: int|
                0 <= g < st.gdt.len() && #[trigger] volume::is_of_group(st.gdt, sb, g, fresh);
            assert(volume::used(st, sb, st.gdt[g].block_bitmap));
            assert(volume::used(st, sb, block_alloc::gdt_block(sb, g)));
        }
    }
}

/// Writing a block that is not the file's inode.
#[verifier::rlimit(100)]
proof fn lemma_write_one(
    st: FsState,
    s: FsState,
    sb: Superblock,
    num: u32,
    fresh: u64,
    at: u64,
    b: u64,
    data: Seq<u8>,
)
    requires
        volume::sound_volume(st, sb),
        took_one(st, s, sb, num, fresh, at),
        b == fresh || b == at,
        b != volume::table_block(st.gdt, sb, num),
        !volume::is_group_block(st.gdt, sb, b),
        data.len() == sb.block_size,
        extent_write::wrote(s, sb, b, data).1 is Ok,
    ensures
        took_one(st, extent_write::wrote(s, sb, b, data).0, sb, num, fresh, at),
        block_device::block_at(
            extent_write::wrote(s, sb, b, data).0.disk,
            sb.block_size,
            b,
        ) == Ok::<Seq<u8>, BlockDeviceError>(data),
        volume::agrees(extent_write::wrote(s, sb, b, data).0, sb.block_size, b),
        forall|c: u64|
            c != b && volume::agrees(s, sb.block_size, c) ==> #[trigger] volume::agrees(
                extent_write::wrote(s, sb, b, data).0,
                sb.block_size,
                c,
            ),
        forall|c: u64|
            #![trigger block_device::block_at(
                extent_write::wrote(s, sb, b, data).0.disk,
                sb.block_size,
                c,
            )]
            c != b ==> volume::untouched(
                s,
                extent_write::wrote(s, sb, b, data).0,
                sb.block_size,
                c,
            ),
{
    let s2 = extent_write::wrote(s, sb, b, data).0;
    volume::lemma_volume_kept(st, s, sb);
    assert(!volume::is_group_block(s.gdt, sb, b));
    volume::lemma_stored(s, sb, b, data);
    volume::lemma_slot_kept(s, s2, sb, num);
    lemma_later(st, s, s2, sb);
    assert(volume::used(s2, sb, fresh));
}

/// The same state seen as one that may also differ in block `at`.
proof fn lemma_widen(
    st: FsState,
    s: FsState,
    sb: Superblock,
    num: u32,
    fresh: u64,
    at: u64,
)
    requires
        took_one(st, s, sb, num, fresh, fresh),
    ensures
        took_one(st, s, sb, num, fresh, at),
{
}

/// The blocks that a split writes.
#[verifier::rlimit(100)]
proof fn lemma_split_added(
    st: FsState,
    s1: FsState,
    sb: Superblock,
    num: u32,
    at: u64,
    fresh: u64,
    node: Seq<u8>,
    entry: Seq<u8>,
    root: Seq<u8>,
) -> (s4: FsState)
    requires
        volume::sound_volume(st, sb),
        block_device::block_at(st.disk, sb.block_size, at) == Ok::<Seq<u8>, BlockDeviceError>(
            node,
        ),
        tree::sound_node(node, 0),
        extent::header(node).eh_entries >= extent::header(node).eh_max >= 2,
        block_alloc::allocated(st, sb, 1, num as u64) == (
            s1,
            Ok::<u64, crate::allocator::AllocError>(fresh),
        ),
        took_one(st, s1, sb, num, fresh, at),
        fresh != at,
        at != volume::table_block(st.gdt, sb, num),
        !volume::is_group_block(st.gdt, sb, at),
        entry.len() == 12,
        extent_write::leaf_added(st, sb, num as u64, at, entry, root).1 is Ok,
    ensures
        ({
            let h = extent::header(node);
            let keep = h.eh_entries as int / 2;
            let low = extent_write::with_header(node, keep, h.eh_max, 0);
            let high = nodes::moved(node, sb.block_size, keep, h.eh_max, 0);
            let high2 = extent_write::with_leaf(high, extent::header(high), entry);
            let child = extent_write::with_child(root, bytes::le32(high, 12), fresh);
            &&& child is Ok
            &&& extent_write::leaf_added(st, sb, num as u64, at, entry, root) == (s4, child)
            &&& took_one(st, s4, sb, num, fresh, at)
            &&& volume::agrees(s4, sb.block_size, at)
            &&& volume::agrees(s4, sb.block_size, fresh)
            &&& block_device::block_at(s4.disk, sb.block_size, at) == Ok::<
                Seq<u8>,
                BlockDeviceError,
            >(low)
            &&& block_device::block_at(s4.disk, sb.block_size, fresh) == Ok::<
                Seq<u8>,
                BlockDeviceError,
            >(high2)
        }),
{
    let bs = sb.block_size;
    let h = extent::header(node);
    let keep = h.eh_entries as int / 2;
    let low = extent_write::with_header(node, keep, h.eh_max, 0);
    let high = nodes::moved(node, bs, keep, h.eh_max, 0);
    let high2 = extent_write::with_leaf(high, extent::header(high), entry);
    block_device::lemma_block_at(st.disk, bs, at);
    nodes::lemma_lower(node, keep);
    nodes::lemma_moved(node, bs, keep, h.eh_max);
    assert(volume::is_group_block(
        s1.gdt,
        sb,
        fresh,
    ) == volume::is_group_block(st.gdt, sb, fresh)) by {
        volume::lemma_volume_kept(st, s1, sb);
    }
    let s2 = extent_write::wrote(s1, sb, at, low).0;
    lemma_write_one(st, s1, sb, num, fresh, at, at, low);
    let s3 = extent_write::wrote(s2, sb, fresh, high).0;
    lemma_write_one(st, s2, sb, num, fresh, at, fresh, high);
    assert(extent_write::parsed(high, fresh) == Ok::<extent::ExtentHeader, ExtentWriteError>(
        extent::header(high),
    ));
    let s4 = extent_write::wrote(s3, sb, fresh, high2).0;
    lemma_write_one(st, s3, sb, num, fresh, at, fresh, high2);
    s4
}

/// Splitting the rightmost leaf node of a tree of one level.
#[verifier::rlimit(100)]
proof fn lemma_split(
    st: FsState,
    sb: Superblock,
    num: u32,
    rec: Seq<u8>,
    at: u64,
    phys: u64,
    count: u16,
)
    requires
        volume::sound_file(st, sb, num, 1),
        extent_write::opened(st, sb, num) == Ok::<Seq<u8>, ExtentWriteError>(rec),
        ready(st, sb, num, 1, phys, count as int),
        0 < count <= MAX_INIT_LEN,
        tree::end_of(volume::extents_now(st, sb, num)) + count <= tree::LOGICAL_END,
        extent_write::rightmost(
            st.disk,
            sb.block_size,
            extent_write::root_of(rec),
            1,
        ) == Ok::<u64, ExtentWriteError>(at),
        ({
            let node = block_device::block_at(st.disk, sb.block_size, at)->Ok_0;
            extent::header(node).eh_entries >= extent::header(node).eh_max
        }),
        ({
            let node = block_device::block_at(st.disk, sb.block_size, at)->Ok_0;
            let entry = extent_write::leaf_bytes(extent_write::next_logical(node), count, phys);
            let (s2, r2) = extent_write::leaf_added(
                st,
                sb,
                num as u64,
                at,
                entry,
                extent_write::root_of(rec),
            );
            &&& r2 is Ok
            &&& extent_write::flushed(
                s2,
                sb,
                num,
                extent_write::with_more_blocks(
                    extent_write::with_root(rec, r2->Ok_0),
                    sb,
                    extent_write::with_nodes(count, extent_write::root_of(rec), r2->Ok_0),
                ),
            ).1 is Ok
        }),
    ensures
        ({
            let node = block_device::block_at(st.disk, sb.block_size, at)->Ok_0;
            let entry = extent_write::leaf_bytes(extent_write::next_logical(node), count, phys);
            let (s2, r2) = extent_write::leaf_added(
                st,
                sb,
                num as u64,
                at,
                entry,
                extent_write::root_of(rec),
            );
            grew(
                st,
                extent_write::flushed(
                    s2,
                    sb,
                    num,
                    extent_write::with_more_blocks(
                        extent_write::with_root(rec, r2->Ok_0),
                        sb,
                        extent_write::with_nodes(
                            count,
                            extent_write::root_of(rec),
                            r2->Ok_0,
                        ),
                    ),
                ).0,
                sb,
                num,
                1,
                1,
                phys,
                count as int,
            )
        }),
{
    let bs = sb.block_size;
    let root = extent_write::root_of(rec);
    let end = tree::LOGICAL_END as int;
    let hops = block_device::sectors(st.disk) as nat;
    let t = volume::table_block(st.gdt, sb, num);
    volume::lemma_slot_read(st, sb, num);
    lemma_same_root(rec);
    volume::lemma_extents(st, sb, num, 1);
    let v = volume::extents_now(st, sb, num);
    let pre = tree::law_right_edge(st.disk, st.disk, bs, root, 1, 0, end, hops, at);
    assert(volume::node_block(st, sb, num, 1, at));
    let node = block_device::block_at(st.disk, bs, at)->Ok_0;
    block_device::lemma_block_at(st.disk, bs, at);
    let before = extent::node_leaves(node);
    let h = extent::header(node);
    let n = h.eh_entries as int;
    let keep = n / 2;
    assert(v.last() == before.last());
    assert(before.last() == extent::leaf_at(node, extent::entry_offset(n - 1)));
    let next = extent_write::next_logical(node);
    assert(next == tree::end_of(v));
    let entry = extent_write::leaf_bytes(next, count, phys);
    // The block for the upper half.
    let (s1, r1) = block_alloc::allocated(st, sb, 1, num as u64);
    let fresh = r1->Ok_0;
    lemma_take_one(st, sb, num, 1, num as u64);
    lemma_widen(st, s1, sb, num, fresh, at);
    assert(fresh != at);
    // Both halves are written, and the new extent goes into the upper one.
    let low = extent_write::with_header(node, keep, h.eh_max, 0);
    let high = nodes::moved(node, bs, keep, h.eh_max, 0);
    nodes::lemma_lower(node, keep);
    nodes::lemma_moved(node, bs, keep, h.eh_max);
    let high2 = extent_write::with_leaf(high, extent::header(high), entry);
    let leaf = nodes::lemma_with_leaf(high, next, count, phys);
    let root2 = extent_write::with_child(root, bytes::le32(high, 12), fresh)->Ok_0;
    let s4 = lemma_split_added(st, s1, sb, num, at, fresh, node, entry, root);
    let idx = nodes::lemma_with_child(root, 1, bytes::le32(high, 12), fresh);
    // The tree as it is then.
    nodes::lemma_pushed(v, 0, end, leaf);
    nodes::lemma_pushed(before, 0, end, leaf);
    assert(extent::node_idxs(root2).take(extent::header(root).eh_entries as int)
        =~= extent::node_idxs(root));
    assert forall|b: u64| #[trigger]
        tree::within(st.disk, bs, root, 1, b) && b != at implies block_device::block_at(
        s4.disk,
        bs,
        b,
    ) == block_device::block_at(st.disk, bs, b) by {
        assert(volume::node_block(st, sb, num, 1, b));
    }
    tree::law_split_edge(st.disk, s4.disk, bs, root, root2, end, hops, fresh, keep, leaf);
    let more = extent_write::with_nodes(count, root, root2);
    lemma_record(rec, root2, sb, more);
    let rec2 = extent_write::with_more_blocks(extent_write::with_root(rec, root2), sb, more);
    assert forall|b: u64| #[trigger]
        tree::within(s4.disk, bs, root2, 1, b) implies volume::agrees(s4, bs, b)
        && volume::kept_apart(s4, sb, num, b) && (volume::node_block(st, sb, num, 1, b)
        || !volume::used(st, sb, b)) by {
        if b != fresh {
            assert(volume::node_block(st, sb, num, 1, b));
            assert(volume::used(s4, sb, b));
            volume::lemma_volume_kept(st, s4, sb);
        }
    }
    assert forall|b: u64| #[trigger] bystander(st, sb, num, 1, b) implies volume::untouched(
        st,
        s4,
        bs,
        b,
    ) by {}
    lemma_finish(st, s4, sb, num, 1, 1, rec2, phys, count as int);
}

/// The states that growing a tree by a level goes through.
#[verifier::rlimit(100)]
proof fn lemma_grow_added(
    st: FsState,
    s1: FsState,
    sb: Superblock,
    num: u32,
    rec: Seq<u8>,
    fresh: u64,
    entry: Seq<u8>,
) -> (s4: FsState)
    requires
        volume::sound_volume(st, sb),
        volume::sound_slot(st, sb, num),
        rec.len() == 128,
        bytes::le32(rec, 20) == 0,
        inode::inode_of(rec).uses_extents(),
        tree::sound_node(extent_write::root_of(rec), 0),
        block_alloc::allocated(st, sb, 1, num as u64) == (
            s1,
            Ok::<u64, crate::allocator::AllocError>(fresh),
        ),
        took_one(st, s1, sb, num, fresh, fresh),
        entry.len() == 12,
        extent_write::grown(st, sb, num, rec).1 is Ok,
        ({
            let (x, r) = extent_write::grown(st, sb, num, rec);
            extent_write::leaf_added(
                x,
                sb,
                num as u64,
                extent::idx_at(extent_write::root_of(r->Ok_0), 12).child(),
                entry,
                extent_write::root_of(r->Ok_0),
            ).1 is Ok
        }),
    ensures
        ({
            let (x, r) = extent_write::grown(st, sb, num, rec);
            let root = extent_write::root_of(rec);
            let root2 = nodes::new_root(1, fresh);
            let child = nodes::moved(
                root,
                sb.block_size,
                0,
                extent_write::node_capacity(sb.block_size),
                0,
            );
            let child2 = extent_write::with_leaf(child, extent::header(child), entry);
            &&& r->Ok_0 == extent_write::with_root(rec, root2)
            &&& extent_write::root_of(r->Ok_0) == root2
            &&& extent_write::leaf_added(
                x,
                sb,
                num as u64,
                extent::idx_at(extent_write::root_of(r->Ok_0), 12).child(),
                entry,
                extent_write::root_of(r->Ok_0),
            ) == (s4, Ok::<Seq<u8>, ExtentWriteError>(root2))
            &&& took_one(st, s4, sb, num, fresh, fresh)
            &&& volume::agrees(s4, sb.block_size, fresh)
            &&& block_device::block_at(s4.disk, sb.block_size, fresh) == Ok::<
                Seq<u8>,
                BlockDeviceError,
            >(child2)
        }),
{
    let bs = sb.block_size;
    let root = extent_write::root_of(rec);
    let cap = extent_write::node_capacity(bs);
    let child = nodes::moved(root, bs, 0, cap, 0);
    let child2 = extent_write::with_leaf(child, extent::header(child), entry);
    let root2 = nodes::new_root(1, fresh);
    let rec2 = extent_write::with_root(rec, root2);
    let t = volume::table_block(st.gdt, sb, num);
    lemma_same_root(rec);
    nodes::lemma_new_root(1, fresh);
    lemma_record(rec, root2, sb, 0);
    nodes::lemma_moved(root, bs, 0, cap);
    volume::lemma_volume_kept(st, s1, sb);
    let s2 = extent_write::wrote(s1, sb, fresh, child).0;
    lemma_write_one(st, s1, sb, num, fresh, fresh, fresh, child);
    assert(extent_write::grown(st, sb, num, rec) == (
        extent_write::flushed(s2, sb, num, rec2).0,
        Ok::<Seq<u8>, ExtentWriteError>(rec2),
    ));
    let s3 = extent_write::flushed(s2, sb, num, rec2).0;
    volume::lemma_flushed(s2, sb, num, rec2);
    lemma_later(st, s2, s3, sb);
    assert(took_one(st, s3, sb, num, fresh, fresh)) by {
        assert(volume::used(s3, sb, fresh));
    }
    assert(block_device::block_at(s3.disk, bs, fresh) == Ok::<Seq<u8>, BlockDeviceError>(child));
    assert(extent_write::parsed(child, fresh) == Ok::<extent::ExtentHeader, ExtentWriteError>(
        extent::header(child),
    ));
    let s4 = extent_write::wrote(s3, sb, fresh, child2).0;
    assert(child2.len() == bs) by {
        broadcast use crate::bytes::group_codec;

    }
    lemma_write_one(st, s3, sb, num, fresh, fresh, fresh, child2);
    s4
}

/// Growing a tree whose root is a full leaf by a level.
#[verifier::rlimit(100)]
proof fn lemma_grow(
    st: FsState,
    sb: Superblock,
    num: u32,
    rec: Seq<u8>,
    phys: u64,
    count: u16,
)
    requires
        volume::sound_file(st, sb, num, 0),
        extent_write::opened(st, sb, num) == Ok::<Seq<u8>, ExtentWriteError>(rec),
        ready(st, sb, num, 0, phys, count as int),
        0 < count <= MAX_INIT_LEN,
        tree::end_of(volume::extents_now(st, sb, num)) + count <= tree::LOGICAL_END,
        extent_write::coalesced(extent_write::root_of(rec), phys, count) is None,
        extent::header(extent_write::root_of(rec)).eh_entries >= extent::header(
            extent_write::root_of(rec),
        ).eh_max,
        extent_write::appended_flat(st, sb, num, rec, phys, count).1 is Ok,
    ensures
        grew(
            st,
            extent_write::appended_flat(st, sb, num, rec, phys, count).0,
            sb,
            num,
            0,
            1,
            phys,
            count as int,
        ),
{
    let bs = sb.block_size;
    let root = extent_write::root_of(rec);
    let end = tree::LOGICAL_END as int;
    let hops = block_device::sectors(st.disk) as nat;
    volume::lemma_slot_read(st, sb, num);
    lemma_same_root(rec);
    volume::lemma_extents(st, sb, num, 0);
    let v = volume::extents_now(st, sb, num);
    assert(v == extent::node_leaves(root));
    let n = extent::header(root).eh_entries as int;
    let next = extent_write::next_logical(root);
    assert(next == tree::end_of(v)) by {
        if n > 0 {
            assert(v.last() == extent::leaf_at(root, extent::entry_offset(n - 1)));
        }
    }
    let entry = extent_write::leaf_bytes(next, count, phys);
    assert(entry.len() == 12) by {
        broadcast use crate::bytes::group_codec;

    }
    let (s1, r1) = block_alloc::allocated(st, sb, 1, num as u64);
    let fresh = r1->Ok_0;
    lemma_take_one(st, sb, num, 0, num as u64);
    let s4 = lemma_grow_added(st, s1, sb, num, rec, fresh, entry);
    let cap = extent_write::node_capacity(bs);
    let child = nodes::moved(root, bs, 0, cap, 0);
    nodes::lemma_moved(root, bs, 0, cap);
    assert(extent::node_leaves(root).skip(0) =~= v);
    let leaf = nodes::lemma_with_leaf(child, next, count, phys);
    let child2 = extent_write::with_leaf(child, extent::header(child), entry);
    nodes::lemma_pushed(v, 0, end, leaf);
    let root2 = nodes::new_root(1, fresh);
    nodes::lemma_new_root(1, fresh);
    let idxs = extent::node_idxs(root2);
    assert(tree::sound(s4.disk, bs, child2, 0, 0, end));
    assert forall|k: int| 0 <= k < 1 implies {
        let c = #[trigger] tree::child_of(s4.disk, bs, root2, k);
        let key = idxs[k].ei_block as int;
        let stop = tree::upper(idxs, k, end);
        &&& 0 <= key <= stop <= end
        &&& c is Ok
        &&& tree::inhabited(c->Ok_0)
        &&& tree::sound(s4.disk, bs, c->Ok_0, 0, key, stop)
    } by {}
    assert(tree::sound(s4.disk, bs, root2, 1, 0, end));
    assert(extent::tree_leaves(s4.disk, bs, root2, hops) == Ok::<Seq<ExtentLeaf>, ExtentError>(
        v.push(leaf),
    )) by {
        let none = Seq::<ExtentLeaf>::empty();
        assert(tree::child_of(s4.disk, bs, root2, 0) == Ok::<Seq<u8>, BlockDeviceError>(child2));
        assert(extent::tree_leaves(s4.disk, bs, child2, (hops - 1) as nat) == Ok::<
            Seq<ExtentLeaf>,
            ExtentError,
        >(v.push(leaf)));
        assert(extent::child_leaves(s4.disk, bs, root2, 0, hops) == Ok::<
            Seq<ExtentLeaf>,
            ExtentError,
        >(none));
        assert(none + v.push(leaf) =~= v.push(leaf));
        assert(extent::child_leaves(s4.disk, bs, root2, 1, hops) == Ok::<
            Seq<ExtentLeaf>,
            ExtentError,
        >(v.push(leaf)));
    }
    let rec2 = extent_write::with_root(rec, root2);
    let more = extent_write::with_nodes(count, extent_write::root_of(rec), root2);
    lemma_record(rec, root2, sb, more);
    lemma_record(rec2, root2, sb, more);
    let rec3 = extent_write::with_more_blocks(
        extent_write::with_root(rec2, root2),
        sb,
        more,
    );
    assert forall|b: u64| #[trigger]
        tree::within(s4.disk, bs, root2, 1, b) implies volume::agrees(s4, bs, b)
        && volume::kept_apart(s4, sb, num, b) && (volume::node_block(st, sb, num, 0, b)
        || !volume::used(st, sb, b)) by {
        let k = choose|k: int|
            0 <= k < 1 && {
                let c = #[trigger] tree::child_of(s4.disk, bs, root2, k);
                ||| idxs[k].child() == b
                ||| c is Ok && tree::within(s4.disk, bs, c->Ok_0, 0, b)
            };
        assert(b == fresh);
    }
    lemma_finish(st, s4, sb, num, 0, 1, rec3, phys, count as int);
}

/// Appending blocks to a sound file keeps it sound, maps them behind what it
/// mapped, and leaves everything else alone. Gives the depth of its tree.
#[verifier::rlimit(100)]
pub proof fn law_appended(
    st: FsState,
    sb: Superblock,
    num: u32,
    d: nat,
    phys: u64,
    count: u16,
) -> (d2: nat)
    requires
        volume::sound_file(st, sb, num, d),
        ready(st, sb, num, d, phys, count as int),
        0 < count <= MAX_INIT_LEN,
        tree::end_of(volume::extents_now(st, sb, num)) + count <= tree::LOGICAL_END,
        extent_write::appended(st, sb, num, phys, count).1 is Ok,
    ensures
        grew(
            st,
            extent_write::appended(st, sb, num, phys, count).0,
            sb,
            num,
            d,
            d2,
            phys,
            count as int,
        ),
{
    let bs = sb.block_size;
    let end = tree::LOGICAL_END as int;
    let hops = block_device::sectors(st.disk) as nat;
    volume::lemma_slot_read(st, sb, num);
    volume::lemma_extents(st, sb, num, d);
    let rec = extent_write::opened(st, sb, num)->Ok_0;
    lemma_same_root(rec);
    let root = extent_write::root_of(rec);
    let v = volume::extents_now(st, sb, num);
    assert(extent::header(root).eh_depth == d);
    if d == 0 {
        assert(v == extent::node_leaves(root));
        lemma_leaf_grown(root, 0, phys, count);
        let h = extent::header(root);
        match extent_write::coalesced(root, phys, count) {
            Some(root2) => {
                lemma_flat(st, sb, num, rec, root2, phys, count);
                0
            },
            None => if h.eh_entries < h.eh_max {
                let entry = extent_write::leaf_bytes(
                    extent_write::next_logical(root),
                    count,
                    phys,
                );
                lemma_flat(
                    st,
                    sb,
                    num,
                    rec,
                    extent_write::with_leaf(root, h, entry),
                    phys,
                    count,
                );
                0
            } else {
                lemma_grow(st, sb, num, rec, phys, count);
                1
            },
        }
    } else {
        let at = extent_write::rightmost(st.disk, bs, root, d)->Ok_0;
        let pre = tree::law_right_edge(st.disk, st.disk, bs, root, d, 0, end, hops, at);
        assert(volume::node_block(st, sb, num, d, at));
        let node = block_device::block_at(st.disk, bs, at)->Ok_0;
        block_device::lemma_block_at(st.disk, bs, at);
        let before = extent::node_leaves(node);
        let h = extent::header(node);
        assert(v.last() == before.last());
        assert(fs_state::fetched(st.disk, st.txn.blocks, bs, at) == Ok::<
            Seq<u8>,
            BlockDeviceError,
        >(node)) by {
            reveal(volume::agrees);
        }
        assert(tree::in_range(before, before[0].ee_block as int, end)) by {
            assert forall|i: int| #![trigger before[i]] 0 <= i < before.len() implies before[0].ee_block
                <= before[i].ee_block && before[i].blocks() > 0 && before[i].ee_block
                + before[i].blocks() <= end by {
                if i > 0 {
                    assert(before[0].ee_block + before[0].blocks() <= before[i].ee_block);
                }
            }
        }
        lemma_leaf_grown(node, before[0].ee_block as int, phys, count);
        lemma_same_record(rec, sb, count);
        match extent_write::coalesced(node, phys, count) {
            Some(node2) => {
                lemma_edge(st, sb, num, d, rec, at, node2, phys, count);
                d
            },
            None => {
                let entry = extent_write::leaf_bytes(
                    extent_write::next_logical(node),
                    count,
                    phys,
                );
                if h.eh_entries < h.eh_max {
                    lemma_edge(
                        st,
                        sb,
                        num,
                        d,
                        rec,
                        at,
                        extent_write::with_leaf(node, h, entry),
                        phys,
                        count,
                    );
                    d
                } else if d > 1 || extent::header(root).eh_entries >= extent::header(root).eh_max {
                    let next = extent_write::next_logical(node);
                    assert(next == tree::end_of(v));
                    let d2 = insert::law_inserted(st, sb, num, d, next as int, phys, count);
                    let s = extent_write::appended(st, sb, num, phys, count).0;
                    assert(s == extent_insert::inserted(st, sb, num, next as int, phys, count).0);
                    d2
                } else {
                    lemma_split(st, sb, num, rec, at, phys, count);
                    1
                }
            },
        }
    }
}

proof fn lemma_same_record(rec: Seq<u8>, sb: Superblock, count: u16)
    requires
        rec.len() == 128,
    ensures
        extent_write::with_more_blocks(
            extent_write::with_root(rec, extent_write::root_of(rec)),
            sb,
            count,
        ) == extent_write::with_more_blocks(rec, sb, count),
{
    lemma_same_root(rec);
}

} // verus!
