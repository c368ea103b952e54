//! That the tree of a file takes more blocks.
use vstd::prelude::*;
use super::append;
use super::insert;
use super::rooms;
use super::success;
use super::tree;
use super::volume;
use crate::allocator::block_alloc;
use crate::block_device;
use crate::bytes;
use crate::extent;
use crate::extent_insert;
use crate::extent_insert::Put;
use crate::extent_write;
use crate::fs_state;
use crate::fs_state::FsState;
use crate::inode;
use crate::superblock::Superblock;

verus! {

broadcast use crate::bytes::lemma_put_len;

/// Whether a volume has `n` blocks to give, and its transaction can be committed.
pub open spec fn able(st: FsState, sb: Superblock, n: int) -> bool {
    rooms::gives(st, sb, n) && success::settled(st, sb)
}

/// The group blocks of a later state are those of the state before.
proof fn lemma_same_groups(st: FsState, s: FsState, sb: Superblock, b: u64)
    requires
        volume::sound_volume(st, sb),
        volume::later(st, s, sb),
    ensures
        volume::is_group_block(st.gdt, sb, b) == volume::is_group_block(s.gdt, sb, b),
{
    volume::lemma_volume_kept(st, s, sb);
    assert(volume::is_group_block(s.gdt, sb, b) || !volume::is_group_block(s.gdt, sb, b));
}

/// What an allocation leaves can be committed.
pub proof fn lemma_allocated_settled(st: FsState, sb: Superblock, count: u32, hint: u64, i: int)
    requires
        volume::sound_volume(st, sb),
        success::settled(st, sb),
        count > 0,
        0 <= i,
    ensures
        success::settled(block_alloc::allocated_from(st, sb, count, hint, i).0, sb),
    decreases st.gdt.len() - i,
{
    let n = st.gdt.len() as int;
    if i < n {
        let w = sb.blocks_per_group as int;
        let g = block_alloc::nth_group(hint as int / w, i, n);
        vstd::arithmetic::div_mod::lemma_mod_bound((hint as int / w) % n + i, n);
        if st.gdt[g].free_blocks_count < count {
            lemma_allocated_settled(st, sb, count, hint, i + 1);
        } else {
            assert(volume::used(st, sb, st.gdt[g].block_bitmap));
            let bm = crate::allocator::block_bitmap::loaded(st.disk, sb, st.gdt, g)->Ok_0;
            block_device::lemma_block_at(st.disk, sb.block_size, st.gdt[g].block_bitmap);
            match crate::allocator::bits::first_run(bm, count as int, w) {
                None => {
                    lemma_allocated_settled(st, sb, count, hint, i + 1);
                },
                Some(k) => {
                    crate::allocator::laws::lemma_first_run_is(bm, count as int, w);
                    let after = crate::allocator::bits::with_run(bm, k as int, count as int);
                    crate::allocator::bits::lemma_run(bm, k as int, count as int, 0);
                    success::lemma_store_settled(st, sb, st.gdt[g].block_bitmap, after);
                    let s1 = fs_state::store(st, sb.block_size, st.gdt[g].block_bitmap, after).0;
                    let s2 = FsState {
                        gdt: crate::group_desc::with_free_blocks(s1.gdt, g, -(count as int)),
                        ..s1
                    };
                    let gb = block_alloc::gdt_block(sb, g);
                    success::lemma_on(st.disk, s2.disk, sb.block_size, gb);
                    let d = block_device::block_at(s2.disk, sb.block_size, gb)->Ok_0;
                    block_device::lemma_block_at(s2.disk, sb.block_size, gb);
                    crate::group_desc::lemma_described_len(d, sb, g, s2.gdt[g], 0);
                    success::lemma_store_settled(
                        s2,
                        sb,
                        gb,
                        crate::group_desc::described(d, sb, g, s2.gdt[g], 0),
                    );
                },
            }
        }
    }
}

/// A block is given to an able volume's caller.
proof fn lemma_one_given(st: FsState, sb: Superblock, hint: u64, n: int)
    requires
        able(st, sb, n),
        n >= 1,
    ensures
        ({
            let (s, r) = block_alloc::allocated(st, sb, 1, hint);
            &&& r is Ok
            &&& able(s, sb, n - 1)
            &&& volume::later(st, s, sb)
            &&& block_device::block_at(s.disk, sb.block_size, r->Ok_0) is Ok
            &&& !volume::is_group_block(s.gdt, sb, r->Ok_0)
        }),
{
    rooms::law_block_given(st, sb, hint);
    rooms::law_given(st, sb, 1, hint, n);
    lemma_allocated_settled(st, sb, 1, hint, 0);
    let (s, r) = block_alloc::allocated(st, sb, 1, hint);
    assert(!volume::is_group_block(st.gdt, sb, r->Ok_0));
    lemma_same_groups(st, s, sb, r->Ok_0);
}

/// A block that is no group's is written to an able volume.
proof fn lemma_wrote(st: FsState, sb: Superblock, b: u64, data: Seq<u8>, n: int)
    requires
        able(st, sb, n),
        data.len() == sb.block_size,
        block_device::block_at(st.disk, sb.block_size, b) is Ok,
        !volume::is_group_block(st.gdt, sb, b),
    ensures
        ({
            let (s, r) = extent_write::wrote(st, sb, b, data);
            &&& r is Ok
            &&& able(s, sb, n)
            &&& volume::later(st, s, sb)
            &&& s.gdt == st.gdt
        }),
{
    success::lemma_store_settled(st, sb, b, data);
    rooms::lemma_store_gives(st, sb, b, data, n);
}

/// What is later than something later is later.
proof fn lemma_later(a: FsState, b: FsState, c: FsState, sb: Superblock)
    requires
        volume::later(a, b, sb),
        volume::later(b, c, sb),
    ensures
        volume::later(a, c, sb),
{
    assert forall|x: u64| volume::used(a, sb, x) implies #[trigger] volume::used(c, sb, x) by {
        assert(volume::used(b, sb, x));
    }
    assert forall|g: int| #![trigger a.gdt[g]] #![trigger c.gdt[g]]
        0 <= g < a.gdt.len() implies a.gdt[g].block_bitmap == c.gdt[g].block_bitmap
        && a.gdt[g].inode_bitmap == c.gdt[g].inode_bitmap && a.gdt[g].inode_table
        == c.gdt[g].inode_table by {
        assert(a.gdt[g].block_bitmap == b.gdt[g].block_bitmap);
    }
}

/// What a node with something put into it looks like: it is as long as it was, and was
/// split only where it was full.
pub open spec fn put_fits(node: Seq<u8>, p: Put) -> bool {
    &&& p.node.len() == node.len()
    &&& p.split is Some ==> extent::header(node).eh_entries >= extent::header(node).eh_max
}

/// A node takes one more entry.
proof fn lemma_entry_put(
    st: FsState,
    sb: Superblock,
    hint: u64,
    node: Seq<u8>,
    b: u64,
    i: int,
    entry: Seq<u8>,
    n: int,
)
    requires
        able(st, sb, n),
        n >= 1,
        extent::header(node).eh_entries <= extent::header(node).eh_max,
        extent::entry_offset(extent::header(node).eh_max as int) <= node.len(),
        node.len() <= sb.block_size,
        extent::header(node).eh_entries < extent::header(node).eh_max || extent::header(
            node,
        ).eh_max >= 2,
    ensures
        ({
            let (s, r) = extent_insert::entry_put(st, sb, hint, node, b, i, entry);
            &&& r is Ok
            &&& able(s, sb, n - 1)
            &&& volume::later(st, s, sb)
            &&& put_fits(node, r->Ok_0)
        }),
{
    let h = extent::header(node);
    let m = h.eh_entries as int;
    if m >= h.eh_max {
        let keep = m / 2;
        lemma_one_given(st, sb, hint, n);
        let (s1, r1) = block_alloc::allocated(st, sb, 1, hint);
        let fresh = r1->Ok_0;
        let low = extent_insert::lower_half(node, keep);
        let high = extent_insert::upper_half(node, sb.block_size, keep);
        let high2 = if i <= keep {
            high
        } else {
            extent_insert::with_inserted(high, i - keep, entry)
        };
        assert(high.len() == sb.block_size);
        assert(high2.len() == sb.block_size);
        lemma_wrote(s1, sb, fresh, high2, n - 1);
        let s2 = extent_write::wrote(s1, sb, fresh, high2).0;
        lemma_later(st, s1, s2, sb);
    }
}

/// Whether all extents of a tree end at logical block `at` or before.
pub open spec fn ends_by(disk: Seq<u8>, bs: u32, node: Seq<u8>, hops: nat, at: int) -> bool {
    tree::end_of(extent::tree_leaves(disk, bs, node, hops)->Ok_0) <= at
}

/// Whether blocks make an extent of a leaf node longer.
pub open spec fn is_joined(node: Seq<u8>, d: nat, at: u32, phys: u64, count: u16) -> bool {
    d == 0 && extent_insert::joins(
        node,
        extent_insert::place(node, at, extent::header(node).eh_entries as int),
        at,
        phys,
        count,
    )
}

/// Whether a node has room for one more extent, splitting it if need be.
pub open spec fn has_place(node: Seq<u8>, d: nat, at: u32, phys: u64, count: u16) -> bool {
    let h = extent::header(node);
    ||| h.eh_max >= 2
    ||| h.eh_entries < h.eh_max
    ||| is_joined(node, d, at, phys, count)
}

/// A leaf node takes blocks behind all that it maps.
proof fn lemma_leaf_put(
    st: FsState,
    sb: Superblock,
    hint: u64,
    node: Seq<u8>,
    b: u64,
    lo: int,
    hi: int,
    at: u32,
    phys: u64,
    count: u16,
    n: int,
)
    requires
        able(st, sb, n),
        n >= 1,
        tree::sound_node(node, 0),
        tree::in_range(extent::node_leaves(node), lo, hi),
        tree::end_of(extent::node_leaves(node)) <= at,
        node.len() <= sb.block_size,
        has_place(node, 0, at, phys, count),
    ensures
        ({
            let (s, r) = extent_insert::leaf_put(st, sb, hint, node, b, at, phys, count);
            &&& r is Ok
            &&& able(s, sb, n - 1)
            &&& volume::later(st, s, sb)
            &&& put_fits(node, r->Ok_0)
            &&& is_joined(node, 0, at, phys, count) ==> r->Ok_0.split is None
        }),
{
    let v = extent::node_leaves(node);
    let m = extent::header(node).eh_entries as int;
    let i = extent_insert::place(node, at, m);
    insert::lemma_place(node, at, m);
    if m > 0 {
        insert::lemma_key(node, m - 1);
        assert(v[m - 1].blocks() > 0);
        assert(extent_insert::key_at(node, m - 1) < at);
        assert(i == m);
        assert(v[m - 1] == extent::leaf_at(node, extent::entry_offset(m - 1)));
    }
    assert(!extent_insert::overlaps(node, i, at, count));
    if !extent_insert::joins(node, i, at, phys, count) {
        lemma_entry_put(
            st,
            sb,
            hint,
            node,
            b,
            i,
            extent_write::leaf_bytes(at, count, phys),
            n,
        );
    }
}

/// The last child of a sound inner node holds the last extent under it.
proof fn lemma_last_child(
    disk: Seq<u8>,
    bs: u32,
    node: Seq<u8>,
    d: nat,
    lo: int,
    hi: int,
    hops: nat,
    at: int,
)
    requires
        tree::sound(disk, bs, node, d, lo, hi),
        lo <= hi,
        0 < d <= hops,
        ends_by(disk, bs, node, hops, at),
    ensures
        ({
            let k = extent::header(node).eh_entries - 1;
            let x = extent::node_idxs(node)[k];
            let c = tree::child_of(disk, bs, node, k);
            &&& k >= 0
            &&& x.ei_block < at
            &&& c is Ok
            &&& tree::inhabited(c->Ok_0)
            &&& x.ei_block <= hi
            &&& tree::sound(disk, bs, c->Ok_0, (d - 1) as nat, x.ei_block as int, hi)
            &&& ends_by(disk, bs, c->Ok_0, (hops - 1) as nat, at)
        }),
{
    let n = extent::header(node).eh_entries as int;
    let k = n - 1;
    let x = extent::node_idxs(node)[k];
    let c = tree::child_of(disk, bs, node, k);
    tree::lemma_children(disk, bs, node, d, lo, hi, hops, n);
    assert(tree::upper(extent::node_idxs(node), k, hi) == hi);
    tree::law_listed(
        disk,
        bs,
        c->Ok_0,
        (d - 1) as nat,
        x.ei_block as int,
        hi,
        (hops - 1) as nat,
    );
    let w = tree::below(disk, bs, node, k, (hops - 1) as nat);
    let v = extent::tree_leaves(disk, bs, node, hops)->Ok_0;
    assert(v == extent::child_leaves(disk, bs, node, n, hops)->Ok_0);
    assert(v.last() == w.last());
    assert(w[w.len() - 1].blocks() > 0);
    assert(w[0].ee_block <= w[w.len() - 1].ee_block) by {
        if w.len() > 1 {
            assert(w[0].ee_block + w[0].blocks() <= w[w.len() - 1].ee_block);
        }
    }
}

/// A sound tree takes blocks behind all that it maps, where the volume has a block to give for
/// each level of it.
#[verifier::rlimit(60)]
pub proof fn lemma_put_in(
    st: FsState,
    sb: Superblock,
    hint: u64,
    node: Seq<u8>,
    b: u64,
    d: nat,
    lo: int,
    hi: int,
    hops: nat,
    at: u32,
    phys: u64,
    count: u16,
    n: int,
)
    requires
        able(st, sb, n),
        n >= d + 1,
        tree::sound(st.disk, sb.block_size, node, d, lo, hi),
        lo <= hi,
        d <= hops,
        forall|x: u64| #[trigger]
            tree::within(st.disk, sb.block_size, node, d, x) ==> !volume::is_group_block(
                st.gdt,
                sb,
                x,
            ),
        ends_by(st.disk, sb.block_size, node, hops, at as int),
        node.len() <= sb.block_size,
        has_place(node, d, at, phys, count),
    ensures
        ({
            let (s, r) = extent_insert::put_in(st, sb, hint, node, b, d, at, phys, count);
            &&& r is Ok
            &&& able(s, sb, n - d - 1)
            &&& volume::later(st, s, sb)
            &&& put_fits(node, r->Ok_0)
            &&& is_joined(node, d, at, phys, count) ==> r->Ok_0.split is None
        }),
    decreases d,
{
    let bs = sb.block_size;
    if d == 0 {
        lemma_leaf_put(st, sb, hint, node, b, lo, hi, at, phys, count, n);
    } else {
        let m = extent::header(node).eh_entries as int;
        let k = m - 1;
        lemma_last_child(st.disk, bs, node, d, lo, hi, hops, at as int);
        insert::lemma_key(node, k);
        let x = extent::node_idxs(node)[k];
        let c = x.child();
        assert(x == extent::idx_at(node, extent::entry_offset(k)));
        assert(extent_insert::place(node, at, m) == m);
        let child = tree::child_of(st.disk, bs, node, k)->Ok_0;
        block_device::lemma_block_at(st.disk, bs, c);
        assert(tree::within(st.disk, bs, node, d, c));
        assert forall|y: u64| #[trigger]
            tree::within(st.disk, bs, child, (d - 1) as nat, y) implies !volume::is_group_block(
            st.gdt,
            sb,
            y,
        ) by {
            assert(tree::within(st.disk, bs, node, d, y));
        }
        lemma_put_in(
            st,
            sb,
            hint,
            child,
            c,
            (d - 1) as nat,
            x.ei_block as int,
            hi,
            (hops - 1) as nat,
            at,
            phys,
            count,
            n,
        );
        let (s1, r1) = extent_insert::put_in(
            st,
            sb,
            hint,
            child,
            c,
            (d - 1) as nat,
            at,
            phys,
            count,
        );
        let p = r1->Ok_0;
        success::lemma_on(st.disk, s1.disk, bs, c);
        lemma_same_groups(st, s1, sb, c);
        lemma_wrote(s1, sb, c, p.node, n - d);
        let s2 = extent_write::wrote(s1, sb, c, p.node).0;
        lemma_later(st, s1, s2, sb);
        let node2 = extent_insert::with_key(
            node,
            k,
            extent_insert::lesser(extent_insert::key_at(node, k), at),
        );
        lemma_same_header(node, k, extent_insert::lesser(extent_insert::key_at(node, k), at));
        if p.split is Some {
            let (key, fresh) = p.split->Some_0;
            let e = extent_write::idx_bytes(key, fresh);
            lemma_entry_put(s2, sb, hint, node2, b, k + 1, e, n - d);
            let s3 = extent_insert::entry_put(s2, sb, hint, node2, b, k + 1, e).0;
            lemma_later(st, s2, s3, sb);
        }
    }
}

/// A key is not in the header.
proof fn lemma_same_header(node: Seq<u8>, k: int, key: u32)
    requires
        k >= 0,
        node.len() >= 12,
    ensures
        extent::header(extent_insert::with_key(node, k, key)) == extent::header(node),
        extent_insert::with_key(node, k, key).len() == node.len(),
{
    broadcast use crate::bytes::group_codec;

}

/// The record of an inode is written back.
proof fn lemma_flushed(st: FsState, sb: Superblock, num: u32, rec: Seq<u8>, n: int)
    requires
        able(st, sb, n),
        block_device::block_at(
            st.disk,
            sb.block_size,
            volume::table_block(st.gdt, sb, num),
        ) is Ok,
        !volume::is_group_block(st.gdt, sb, volume::table_block(st.gdt, sb, num)),
    ensures
        ({
            let (s, r) = extent_write::flushed(st, sb, num, rec);
            &&& r is Ok
            &&& able(s, sb, n)
            &&& volume::later(st, s, sb)
            &&& s.gdt == st.gdt
        }),
{
    let t = volume::table_block(st.gdt, sb, num);
    block_device::lemma_block_at(st.disk, sb.block_size, t);
    let x = fs_state::fetched(st.disk, st.txn.blocks, sb.block_size, t)->Ok_0;
    lemma_wrote(st, sb, t, bytes::put(x, inode::slot_offset(sb, num), rec), n);
}

/// The block of an inode's record is where it was, and can be written.
proof fn lemma_table_block(st: FsState, s: FsState, sb: Superblock, num: u32)
    requires
        volume::sound_volume(st, sb),
        volume::sound_slot(st, sb, num),
        volume::later(st, s, sb),
    ensures
        volume::table_block(s.gdt, sb, num) == volume::table_block(st.gdt, sb, num),
        block_device::block_at(
            s.disk,
            sb.block_size,
            volume::table_block(s.gdt, sb, num),
        ) is Ok,
        !volume::is_group_block(s.gdt, sb, volume::table_block(s.gdt, sb, num)),
{
    let t = volume::table_block(st.gdt, sb, num);
    let g = inode::group_of(sb, num);
    volume::lemma_slot_read(st, sb, num);
    assert(st.gdt[g].inode_table == s.gdt[g].inode_table);
    success::lemma_on(st.disk, s.disk, sb.block_size, t);
    lemma_same_groups(st, s, sb, t);
}

/// A tree whose root is full grows by a level.
proof fn lemma_grown(st: FsState, sb: Superblock, num: u32, rec: Seq<u8>, n: int)
    requires
        able(st, sb, n),
        n >= 1,
        volume::sound_slot(st, sb, num),
    ensures
        ({
            let (s, r) = extent_write::grown(st, sb, num, rec);
            &&& r is Ok
            &&& able(s, sb, n - 1)
            &&& volume::later(st, s, sb)
        }),
{
    let root = extent_write::root_of(rec);
    let h = extent::header(root);
    lemma_one_given(st, sb, num as u64, n);
    let (s1, r1) = block_alloc::allocated(st, sb, 1, num as u64);
    let fresh = r1->Ok_0;
    let child = bytes::put(
        extent_write::with_header(
            bytes::zeros(sb.block_size as int),
            h.eh_entries as int,
            extent_write::node_capacity(sb.block_size),
            h.eh_depth,
        ),
        12,
        root.subrange(12, extent::entry_offset(h.eh_entries as int)),
    );
    assert(child.len() == sb.block_size);
    lemma_wrote(s1, sb, fresh, child, n - 1);
    let s2 = extent_write::wrote(s1, sb, fresh, child).0;
    lemma_later(st, s1, s2, sb);
    lemma_table_block(st, s2, sb, num);
    let root2 = bytes::put(
        extent_write::with_header(
            bytes::zeros(60),
            1,
            extent_write::ROOT_MAX_ENTRIES,
            (h.eh_depth + 1) as u16,
        ),
        12,
        extent_write::idx_bytes(0, fresh),
    );
    let rec2 = extent_write::with_root(rec, root2);
    lemma_flushed(s2, sb, num, rec2, n - 1);
    lemma_later(st, s2, extent_write::flushed(s2, sb, num, rec2).0, sb);
}

/// A root that has room takes blocks behind all that its tree maps.
proof fn lemma_root_put(
    st: FsState,
    sb: Superblock,
    num: u32,
    rec: Seq<u8>,
    d: nat,
    hops: nat,
    at: u32,
    phys: u64,
    count: u16,
    taken: int,
    n: int,
)
    requires
        able(st, sb, n),
        n >= d + 1,
        insert::in_tree(
            st,
            sb,
            num,
            extent_write::root_of(rec),
            d,
            0,
            tree::LOGICAL_END as int,
        ),
        d <= hops,
        ends_by(st.disk, sb.block_size, extent_write::root_of(rec), hops, at as int),
        extent_write::root_of(rec).len() <= sb.block_size,
        extent::header(extent_write::root_of(rec)).eh_entries < extent::header(
            extent_write::root_of(rec),
        ).eh_max || is_joined(extent_write::root_of(rec), d, at, phys, count),
    ensures
        ({
            let (s, r) = extent_insert::root_put(st, sb, num, rec, at, phys, count, taken);
            &&& r is Ok
            &&& able(s, sb, n - d - 1)
            &&& volume::later(st, s, sb)
        }),
{
    let root = extent_write::root_of(rec);
    let end = tree::LOGICAL_END as int;
    assert forall|x: u64| #[trigger]
        tree::within(st.disk, sb.block_size, root, d, x) implies !volume::is_group_block(
        st.gdt,
        sb,
        x,
    ) by {
        assert(volume::kept_apart(st, sb, num, x));
    }
    assert(extent::header(root).eh_depth == d);
    lemma_put_in(st, sb, num as u64, root, 0, d, 0, end, hops, at, phys, count, n);
    let (s2, r2) = extent_insert::put_in(st, sb, num as u64, root, 0, d, at, phys, count);
    let p = r2->Ok_0;
    lemma_table_block(st, s2, sb, num);
    let rec2 = extent_write::with_more_blocks(
        extent_write::with_root(rec, p.node),
        sb,
        (count + taken + p.taken) as u16,
    );
    lemma_flushed(s2, sb, num, rec2, n - d - 1);
    lemma_later(st, s2, extent_write::flushed(s2, sb, num, rec2).0, sb);
}

/// Whether the tree of a file takes one more extent: its root has room, or it can grow by a
/// level.
pub open spec fn can_grow(st: FsState, sb: Superblock, num: u32, d: nat) -> bool {
    let h = extent::header(volume::inode_now(st, sb, num).block_data);
    h.eh_entries < h.eh_max || d < extent::MAX_DEPTH && h.eh_entries > 0
}

/// A sound file takes blocks behind all that it maps, where the volume has a block to give for
/// each level of its tree, and for one more.
pub proof fn law_insertion_succeeds(
    st: FsState,
    sb: Superblock,
    num: u32,
    d: nat,
    at: int,
    phys: u64,
    count: u16,
    n: int,
)
    requires
        volume::sound_file(st, sb, num, d),
        able(st, sb, n),
        n >= d + 3,
        0 <= at,
        at + count <= tree::LOGICAL_END,
        0 < count,
        tree::end_of(volume::extents_now(st, sb, num)) <= at,
        can_grow(st, sb, num, d),
    ensures
        ({
            let (s, r) = extent_insert::inserted(st, sb, num, at, phys, count);
            &&& r is Ok
            &&& able(s, sb, n - d - 3)
            &&& volume::later(st, s, sb)
        }),
{
    let bs = sb.block_size;
    let hops = block_device::sectors(st.disk) as nat;
    let end = tree::LOGICAL_END as int;
    volume::lemma_slot_read(st, sb, num);
    volume::lemma_extents(st, sb, num, d);
    let rec = extent_write::opened(st, sb, num)->Ok_0;
    append::lemma_same_root(rec);
    let root = extent_write::root_of(rec);
    assert(root == volume::inode_now(st, sb, num).block_data);
    assert(insert::in_tree(st, sb, num, root, d, 0, end)) by {
        assert forall|b: u64| #[trigger] tree::within(
            st.disk,
            bs,
            root,
            d,
            b,
        ) implies volume::kept_apart(st, sb, num, b) && volume::agrees(st, bs, b) by {
            assert(volume::node_block(st, sb, num, d, b));
        }
    }
    let h = extent::header(root);
    if h.eh_entries < h.eh_max || is_joined(root, d, at as u32, phys, count) {
        lemma_root_put(st, sb, num, rec, d, hops, at as u32, phys, count, 0, n);
    } else {
        lemma_grown(st, sb, num, rec, n);
        insert::lemma_grown(st, sb, num, d, rec);
        let (s1, r1) = extent_write::grown(st, sb, num, rec);
        let rec2 = r1->Ok_0;
        lemma_root_put(s1, sb, num, rec2, d + 1, hops, at as u32, phys, count, 1, n - 1);
        let s2 = extent_insert::root_put(s1, sb, num, rec2, at as u32, phys, count, 1).0;
        lemma_later(st, s1, s2, sb);
    }
}

} // verus!
