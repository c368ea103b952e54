//! What mapping blocks at a given place of a file's tree keeps, and what it adds.
use vstd::prelude::*;
use super::append;
use super::nodes;
use super::tree;
use super::volume;
use crate::allocator::block_alloc;
use crate::block_device;
use crate::block_device::BlockDeviceError;
use crate::bytes;
use crate::extent;
use crate::extent::{ExtentError, ExtentIdx, ExtentLeaf, MAX_INIT_LEN};
use crate::extent_insert;
use crate::extent_write;
use crate::extent_write::ExtentWriteError;
use crate::fs_state::FsState;
use crate::inode;
use crate::inode::InodeView;
use crate::superblock::Superblock;

verus! {

/// Whether `w` maps what `v` maps and, at logical block `at`, the `count` blocks from
/// `phys` on, and ends where they end, or where `v` does if that is later.
pub open spec fn gains(
    v: Seq<ExtentLeaf>,
    w: Seq<ExtentLeaf>,
    at: int,
    phys: u64,
    count: int,
) -> bool {
    &&& tree::end_of(w) == (if at + count > tree::end_of(v) {
        at + count
    } else {
        tree::end_of(v)
    })
    &&& forall|l: u64| #[trigger]
        extent::mapped(w, l) == (if at <= l < at + count {
            Some((phys + (l - at)) as u64)
        } else {
            extent::mapped(v, l)
        })
}

/// The entry that stands in 12 bytes.
proof fn lemma_entries(block: u32, len: u16, phys: u64)
    requires
        phys < 0x1_0000_0000_0000,
    ensures
        ({
            let l = extent::leaf_at(extent_write::leaf_bytes(block, len, phys), 0);
            l.ee_block == block && l.ee_len == len && l.phys() == phys
        }),
        ({
            let x = extent::idx_at(extent_write::idx_bytes(block, phys), 0);
            x.ei_block == block && x.child() == phys
        }),
        extent_write::leaf_bytes(block, len, phys).len() == 12,
        extent_write::idx_bytes(block, phys).len() == 12,
{
    broadcast use crate::bytes::group_codec;

}

/// A node that an entry was put into.
proof fn lemma_inserted(node: Seq<u8>, d: nat, i: int, entry: Seq<u8>)
    requires
        tree::sound_node(node, d),
        0 <= i <= extent::header(node).eh_entries < extent::header(node).eh_max,
        entry.len() == 12,
    ensures
        ({
            let node2 = extent_insert::with_inserted(node, i, entry);
            &&& tree::sound_node(node2, d)
            &&& node2.len() == node.len()
            &&& extent::header(node2).eh_entries == extent::header(node).eh_entries + 1
            &&& extent::header(node2).eh_max == extent::header(node).eh_max
            &&& extent::node_leaves(node2) == extent::node_leaves(node).insert(
                i,
                extent::leaf_at(entry, 0),
            )
            &&& extent::node_idxs(node2) == extent::node_idxs(node).insert(
                i,
                extent::idx_at(entry, 0),
            )
        }),
{
    let h = extent::header(node);
    let n = h.eh_entries as int;
    let tail = node.subrange(extent::entry_offset(i), extent::entry_offset(n));
    let mid = bytes::put(node, extent::entry_offset(i + 1), tail);
    let mid2 = extent_write::with_entry(mid, i, entry);
    let node2 = extent_insert::with_inserted(node, i, entry);
    assert(mid2.len() == node.len());
    extent_write::lemma_header(mid2, n + 1, h.eh_max, h.eh_depth);
    let v = extent::node_leaves(node).insert(i, extent::leaf_at(entry, 0));
    let w = extent::node_leaves(node2);
    let x = extent::node_idxs(node).insert(i, extent::idx_at(entry, 0));
    let y = extent::node_idxs(node2);
    assert forall|j: int| 0 <= j < n + 1 implies w[j] == v[j] && y[j] == x[j] by {
        let a = extent::entry_offset(j);
        if j < i {
            assert forall|t: int| 0 <= t < 12 implies #[trigger] node2[a + t] == node[a + t] by {}
            nodes::lemma_same_entry(node2, a, node, a);
        } else if j == i {
            assert forall|t: int| 0 <= t < 12 implies #[trigger] node2[a + t] == entry[0 + t] by {
            }
            nodes::lemma_same_entry(node2, a, entry, 0);
        } else {
            let b = extent::entry_offset(j - 1);
            assert forall|t: int| 0 <= t < 12 implies #[trigger] node2[a + t] == node[b + t] by {
                assert(node2[a + t] == tail[a + t - extent::entry_offset(i + 1)]);
            }
            nodes::lemma_same_entry(node2, a, node, b);
        }
    }
    assert(w =~= v);
    assert(y =~= x);
}

/// The two halves of a node.
proof fn lemma_halves(node: Seq<u8>, d: nat, bs: u32, keep: int)
    requires
        tree::sound_node(node, d),
        0 <= keep <= extent::header(node).eh_entries,
        extent::entry_offset(extent::header(node).eh_max as int) <= bs,
    ensures
        ({
            let h = extent::header(node);
            let low = extent_insert::lower_half(node, keep);
            let high = extent_insert::upper_half(node, bs, keep);
            &&& tree::sound_node(low, d)
            &&& low.len() == node.len()
            &&& extent::header(low).eh_entries == keep
            &&& extent::header(low).eh_max == h.eh_max
            &&& extent::node_leaves(low) == extent::node_leaves(node).take(keep)
            &&& extent::node_idxs(low) == extent::node_idxs(node).take(keep)
            &&& tree::sound_node(high, d)
            &&& high.len() == bs
            &&& extent::header(high).eh_entries == h.eh_entries - keep
            &&& extent::header(high).eh_max == h.eh_max
            &&& extent::node_leaves(high) == extent::node_leaves(node).skip(keep)
            &&& extent::node_idxs(high) == extent::node_idxs(node).skip(keep)
        }),
{
    let h = extent::header(node);
    let n = h.eh_entries as int;
    let low = extent_insert::lower_half(node, keep);
    let high = extent_insert::upper_half(node, bs, keep);
    extent_write::lemma_header(node, keep, h.eh_max, h.eh_depth);
    let zero = bytes::zeros(bs as int);
    extent_write::lemma_header(zero, n - keep, h.eh_max, h.eh_depth);
    let d2 = node.subrange(extent::entry_offset(keep), extent::entry_offset(n));
    let base = extent_write::with_header(zero, n - keep, h.eh_max, h.eh_depth);
    assert(extent::header(high) == extent::header(base)) by {
        broadcast use crate::bytes::group_codec;

    }
    assert forall|j: int| 0 <= j < keep implies extent::node_leaves(low)[j]
        == extent::node_leaves(node).take(keep)[j] && extent::node_idxs(low)[j]
        == extent::node_idxs(node).take(keep)[j] by {
        nodes::lemma_same_entry(low, extent::entry_offset(j), node, extent::entry_offset(j));
    }
    assert(extent::node_leaves(low) =~= extent::node_leaves(node).take(keep));
    assert(extent::node_idxs(low) =~= extent::node_idxs(node).take(keep));
    assert forall|j: int| 0 <= j < n - keep implies extent::node_leaves(high)[j]
        == extent::node_leaves(node).skip(keep)[j] && extent::node_idxs(high)[j]
        == extent::node_idxs(node).skip(keep)[j] by {
        let a = extent::entry_offset(j);
        let b = extent::entry_offset(keep + j);
        assert forall|t: int| 0 <= t < 12 implies #[trigger] high[a + t] == node[b + t] by {
            assert(high[a + t] == d2[a + t - 12]);
        }
        nodes::lemma_same_entry(high, a, node, b);
    }
    assert(extent::node_leaves(high) =~= extent::node_leaves(node).skip(keep));
    assert(extent::node_idxs(high) =~= extent::node_idxs(node).skip(keep));
}

/// The key of an entry is where its extents start.
pub proof fn lemma_key(node: Seq<u8>, i: int)
    requires
        0 <= i < extent::header(node).eh_entries,
    ensures
        extent_insert::key_at(node, i) == extent::node_leaves(node)[i].ee_block,
        extent_insert::key_at(node, i) == extent::node_idxs(node)[i].ei_block,
{
}

/// A place has the smaller keys in front of it, and the next key behind it is
/// greater.
pub proof fn lemma_place(node: Seq<u8>, at: u32, n: int)
    requires
        0 <= n,
    ensures
        0 <= extent_insert::place(node, at, n) <= n,
        extent_insert::place(node, at, n) > 0 ==> extent_insert::key_at(
            node,
            extent_insert::place(node, at, n) - 1,
        ) <= at,
        forall|j: int|
            extent_insert::place(node, at, n) <= j < n ==> #[trigger] extent_insert::key_at(
                node,
                j,
            ) > at,
    decreases n,
{
    if n > 0 && extent_insert::key_at(node, n - 1) > at {
        lemma_place(node, at, n - 1);
    }
}

/// Whether `s` is `st` but for groups' blocks, blocks that were not used, and nodes
/// under `node`.
pub open spec fn touched(
    st: FsState,
    s: FsState,
    sb: Superblock,
    num: u32,
    node: Seq<u8>,
    d: nat,
) -> bool {
    &&& volume::later(st, s, sb)
    &&& volume::sound_volume(s, sb)
    &&& volume::sound_slot(s, sb, num)
    &&& volume::table_block(s.gdt, sb, num) == volume::table_block(st.gdt, sb, num)
    &&& forall|c: u64| #![trigger block_device::block_at(s.disk, sb.block_size, c)]
        volume::used(st, sb, c) && !volume::is_group_block(st.gdt, sb, c) && !tree::within(
            st.disk,
            sb.block_size,
            node,
            d,
            c,
        ) ==> volume::untouched(st, s, sb.block_size, c)
    &&& forall|c: u64|
        volume::agrees(st, sb.block_size, c) ==> #[trigger] volume::agrees(
            s,
            sb.block_size,
            c,
        )
}

/// Whether block `b` was not used in `st`, and is the file's in `s`.
pub open spec fn fresh_block(st: FsState, s: FsState, sb: Superblock, num: u32, b: u64) -> bool {
    &&& !volume::used(st, sb, b)
    &&& volume::kept_apart(s, sb, num, b)
    &&& volume::agrees(s, sb.block_size, b)
    &&& b < volume::BLOCK_END
}

/// Putting an entry into a node: the entries are what they were with that one more,
/// in one node or in two.
#[verifier::rlimit(100)]
proof fn lemma_entry_put(
    st: FsState,
    sb: Superblock,
    num: u32,
    hint: u64,
    node: Seq<u8>,
    b: u64,
    d: nat,
    i: int,
    entry: Seq<u8>,
) -> (m: int)
    requires
        volume::sound_volume(st, sb),
        volume::sound_slot(st, sb, num),
        tree::sound_node(node, d),
        extent::header(node).eh_max >= 2 || extent::header(node).eh_entries < extent::header(
            node,
        ).eh_max,
        node.len() <= sb.block_size,
        0 <= i <= extent::header(node).eh_entries,
        entry.len() == 12,
        extent_insert::entry_put(st, sb, hint, node, b, i, entry).1 is Ok,
    ensures
        ({
            let (s, r) = extent_insert::entry_put(st, sb, hint, node, b, i, entry);
            let p = r->Ok_0;
            let v = extent::node_leaves(node).insert(i, extent::leaf_at(entry, 0));
            let x = extent::node_idxs(node).insert(i, extent::idx_at(entry, 0));
            &&& tree::sound_node(p.node, d)
            &&& p.node.len() == node.len()
            &&& extent::header(p.node).eh_max == extent::header(node).eh_max
            &&& extent::header(p.node).eh_entries > 0
            &&& extent::node_leaves(p.node) == v.take(m)
            &&& extent::node_idxs(p.node) == x.take(m)
            &&& match p.split {
                None => s == st && m == v.len(),
                Some((key, fresh)) => {
                    let other = block_device::block_at(s.disk, sb.block_size, fresh);
                    &&& touched(st, s, sb, num, node, 0)
                    &&& fresh_block(st, s, sb, num, fresh)
                    &&& 0 < m < v.len()
                    &&& other is Ok
                    &&& tree::sound_node(other->Ok_0, d)
                    &&& tree::inhabited(other->Ok_0)
                    &&& extent::header(node).eh_max >= 2
                    &&& extent::node_leaves(other->Ok_0) == v.skip(m)
                    &&& extent::node_idxs(other->Ok_0) == x.skip(m)
                    &&& key == v[m].ee_block
                    &&& key == x[m].ei_block
                },
            }
        }),
{
    let bs = sb.block_size;
    let h = extent::header(node);
    let n = h.eh_entries as int;
    let v0 = extent::node_leaves(node);
    let x0 = extent::node_idxs(node);
    let v = v0.insert(i, extent::leaf_at(entry, 0));
    let x = x0.insert(i, extent::idx_at(entry, 0));
    let (s, r) = extent_insert::entry_put(st, sb, hint, node, b, i, entry);
    if n < h.eh_max {
        lemma_inserted(node, d, i, entry);
        assert(v.take(n + 1) =~= v);
        assert(x.take(n + 1) =~= x);
        n + 1
    } else {
        let keep = n / 2;
        lemma_halves(node, d, bs, keep);
        let low = extent_insert::lower_half(node, keep);
        let high = extent_insert::upper_half(node, bs, keep);
        let (s1, r1) = block_alloc::allocated(st, sb, 1, hint);
        let fresh = r1->Ok_0;
        let high2 = if i <= keep {
            high
        } else {
            extent_insert::with_inserted(high, i - keep, entry)
        };
        let m = if i <= keep {
            keep + 1
        } else {
            keep
        };
        if i <= keep {
            lemma_inserted(low, d, i, entry);
            let low2 = extent_insert::with_inserted(low, i, entry);
            assert(extent::node_leaves(low2) =~= v.take(m));
            assert(extent::node_idxs(low2) =~= x.take(m));
            assert(extent::node_leaves(high) =~= v.skip(m));
            assert(extent::node_idxs(high) =~= x.skip(m));
        } else {
            lemma_inserted(high, d, i - keep, entry);
            assert(extent::node_leaves(low) =~= v.take(m));
            assert(extent::node_idxs(low) =~= x.take(m));
            assert(extent::node_leaves(high2) =~= v.skip(m));
            assert(extent::node_idxs(high2) =~= x.skip(m));
        }
        lemma_key(high2, 0);
        assert(extent::node_leaves(high2)[0] == v.skip(m)[0]);
        assert(extent::node_idxs(high2)[0] == x.skip(m)[0]);
        lemma_fresh(st, sb, num, hint, node);
        lemma_written_fresh(st, s1, sb, num, fresh, node, high2);
        m
    }
}

/// Allocating a block for a node.
#[verifier::rlimit(100)]
proof fn lemma_fresh(st: FsState, sb: Superblock, num: u32, hint: u64, node: Seq<u8>)
    requires
        volume::sound_volume(st, sb),
        volume::sound_slot(st, sb, num),
        block_alloc::allocated(st, sb, 1, hint).1 is Ok,
    ensures
        ({
            let (s, r) = block_alloc::allocated(st, sb, 1, hint);
            let fresh = r->Ok_0;
            &&& touched(st, s, sb, num, node, 0)
            &&& !volume::used(st, sb, fresh)
            &&& volume::kept_apart(s, sb, num, fresh)
            &&& fresh < volume::BLOCK_END
            &&& inode::inode_at(s.disk, sb, s.gdt, num) == inode::inode_at(
                st.disk,
                sb,
                st.gdt,
                num,
            )
        }),
{
    let (s, r) = block_alloc::allocated(st, sb, 1, hint);
    let fresh = r->Ok_0;
    volume::lemma_allocated(st, sb, 1, hint);
    volume::lemma_slot_kept(st, s, sb, num);
    volume::lemma_volume_kept(st, s, sb);
    assert(volume::used(s, sb, fresh));
    assert(!volume::is_group_block(st.gdt, sb, fresh)) by {
        reveal(volume::is_group_block);
        if volume::is_group_block(st.gdt, sb, fresh) {
            let g = choose|g: int|
                0 <= g < st.gdt.len() && #[trigger] volume::is_of_group(st.gdt, sb, g, fresh);
            assert(volume::used(st, sb, st.gdt[g].block_bitmap));
            assert(volume::used(st, sb, block_alloc::gdt_block(sb, g)));
        }
    }
}

/// Writing such a block.
#[verifier::rlimit(100)]
proof fn lemma_written_fresh(
    st: FsState,
    s: FsState,
    sb: Superblock,
    num: u32,
    fresh: u64,
    node: Seq<u8>,
    data: Seq<u8>,
)
    requires
        volume::sound_volume(st, sb),
        touched(st, s, sb, num, node, 0),
        !volume::used(st, sb, fresh),
        volume::kept_apart(s, sb, num, fresh),
        fresh < volume::BLOCK_END,
        data.len() == sb.block_size,
        extent_write::wrote(s, sb, fresh, data).1 is Ok,
    ensures
        ({
            let s2 = extent_write::wrote(s, sb, fresh, data).0;
            &&& touched(st, s2, sb, num, node, 0)
            &&& fresh_block(st, s2, sb, num, fresh)
            &&& block_device::block_at(s2.disk, sb.block_size, fresh) == Ok::<
                Seq<u8>,
                BlockDeviceError,
            >(data)
            &&& inode::inode_at(s2.disk, sb, s2.gdt, num) == inode::inode_at(
                s.disk,
                sb,
                s.gdt,
                num,
            )
        }),
{
    let s2 = extent_write::wrote(s, sb, fresh, data).0;
    volume::lemma_stored(s, sb, fresh, data);
    volume::lemma_slot_kept(s, s2, sb, num);
    append::lemma_later(st, s, s2, sb);
    assert(volume::used(s2, sb, fresh));
    assert forall|c: u64| #![trigger block_device::block_at(s2.disk, sb.block_size, c)]
        volume::used(st, sb, c) && !volume::is_group_block(st.gdt, sb, c) && !tree::within(
            st.disk,
            sb.block_size,
            node,
            0,
            c,
        ) implies volume::untouched(st, s2, sb.block_size, c) by {
        assert(c != fresh);
        assert(volume::untouched(s, s2, sb.block_size, c));
        assert(block_device::block_at(s.disk, sb.block_size, c) is Ok
            || block_device::block_at(s.disk, sb.block_size, c) is Err);
        assert(volume::untouched(st, s, sb.block_size, c));
    }
}

/// Whether the child that an entry leads to is sound, up to `end`.
#[verifier::opaque]
pub open spec fn sound_child(disk: Seq<u8>, bs: u32, x: ExtentIdx, end: int, d: nat) -> bool {
    let c = block_device::block_at(disk, bs, x.child());
    &&& c is Ok
    &&& tree::inhabited(c->Ok_0)
    &&& tree::sound(disk, bs, c->Ok_0, d, x.ei_block as int, end)
}

/// Whether the children that a list of entries leads to are sound, and between `lo`
/// and `hi`.
pub open spec fn sound_list(
    disk: Seq<u8>,
    bs: u32,
    xs: Seq<ExtentIdx>,
    d: nat,
    lo: int,
    hi: int,
) -> bool {
    forall|k: int|
        0 <= k < xs.len() ==> {
            &&& lo <= (#[trigger] xs[k]).ei_block <= tree::upper(xs, k, hi) <= hi
            &&& sound_child(disk, bs, xs[k], tree::upper(xs, k, hi), d)
        }
}

/// The extents under a list of entries.
pub open spec fn list_leaves(disk: Seq<u8>, bs: u32, xs: Seq<ExtentIdx>, hops: nat) -> Seq<
    ExtentLeaf,
>
    decreases xs.len(),
{
    if xs.len() == 0 {
        Seq::empty()
    } else {
        list_leaves(disk, bs, xs.drop_last(), hops) + extent::tree_leaves(
            disk,
            bs,
            block_device::block_at(disk, bs, xs.last().child())->Ok_0,
            hops,
        )->Ok_0
    }
}

/// Whether block `b` holds the child of an entry, or a node under it.
pub open spec fn under(disk: Seq<u8>, bs: u32, x: ExtentIdx, d: nat, b: u64) -> bool {
    let c = block_device::block_at(disk, bs, x.child());
    x.child() == b || c is Ok && tree::within(disk, bs, c->Ok_0, d, b)
}

/// Whether block `b` holds a node under a list of entries.
pub open spec fn under_list(
    disk: Seq<u8>,
    bs: u32,
    xs: Seq<ExtentIdx>,
    d: nat,
    b: u64,
) -> bool {
    exists|k: int| 0 <= k < xs.len() && under(disk, bs, #[trigger] xs[k], d, b)
}

/// A sound inner node is one whose entries are.
proof fn lemma_as_list(disk: Seq<u8>, bs: u32, node: Seq<u8>, d: nat, lo: int, hi: int)
    requires
        d > 0,
        tree::sound_node(node, d),
    ensures
        tree::sound(disk, bs, node, d, lo, hi) == (extent::header(node).eh_entries > 0
            && sound_list(disk, bs, extent::node_idxs(node), (d - 1) as nat, lo, hi)),
        forall|b: u64| #[trigger]
            tree::within(disk, bs, node, d, b) == under_list(
                disk,
                bs,
                extent::node_idxs(node),
                (d - 1) as nat,
                b,
            ),
{
    reveal(sound_child);
    let xs = extent::node_idxs(node);
    let n = extent::header(node).eh_entries as int;
    if tree::sound(disk, bs, node, d, lo, hi) {
        assert forall|k: int| 0 <= k < xs.len() implies {
            &&& lo <= (#[trigger] xs[k]).ei_block <= tree::upper(xs, k, hi) <= hi
            &&& sound_child(disk, bs, xs[k], tree::upper(xs, k, hi), (d - 1) as nat)
        } by {
            let c = tree::child_of(disk, bs, node, k);
        }
    }
    if n > 0 && sound_list(disk, bs, xs, (d - 1) as nat, lo, hi) {
        assert forall|k: int| 0 <= k < n implies {
            let c = #[trigger] tree::child_of(disk, bs, node, k);
            let key = xs[k].ei_block as int;
            let end = tree::upper(xs, k, hi);
            &&& lo <= key <= end <= hi
            &&& c is Ok
            &&& tree::inhabited(c->Ok_0)
            &&& tree::sound(disk, bs, c->Ok_0, (d - 1) as nat, key, end)
        } by {
            assert(sound_child(disk, bs, xs[k], tree::upper(xs, k, hi), (d - 1) as nat));
        }
    }
    assert forall|b: u64| #[trigger] tree::within(disk, bs, node, d, b) == under_list(
        disk,
        bs,
        xs,
        (d - 1) as nat,
        b,
    ) by {
        if tree::within(disk, bs, node, d, b) {
            let k = choose|k: int|
                0 <= k < n && {
                    let c = #[trigger] tree::child_of(disk, bs, node, k);
                    ||| xs[k].child() == b
                    ||| c is Ok && tree::within(disk, bs, c->Ok_0, (d - 1) as nat, b)
                };
            assert(under(disk, bs, xs[k], (d - 1) as nat, b));
        }
        if under_list(disk, bs, xs, (d - 1) as nat, b) {
            let k = choose|k: int|
                0 <= k < xs.len() && under(disk, bs, #[trigger] xs[k], (d - 1) as nat, b);
            let c = tree::child_of(disk, bs, node, k);
        }
    }
}

/// The extents of a sound inner node are those under its entries.
proof fn lemma_list_leaves(
    disk: Seq<u8>,
    bs: u32,
    node: Seq<u8>,
    d: nat,
    lo: int,
    hi: int,
    hops: nat,
    k: int,
)
    requires
        tree::sound(disk, bs, node, d, lo, hi),
        lo <= hi,
        0 < d <= hops,
        0 <= k <= extent::header(node).eh_entries,
    ensures
        extent::child_leaves(disk, bs, node, k, hops) == Ok::<Seq<ExtentLeaf>, ExtentError>(
            list_leaves(disk, bs, extent::node_idxs(node).take(k), (hops - 1) as nat),
        ),
    decreases k,
{
    let xs = extent::node_idxs(node);
    tree::lemma_children(disk, bs, node, d, lo, hi, hops, k);
    if k > 0 {
        lemma_list_leaves(disk, bs, node, d, lo, hi, hops, k - 1);
        assert(xs.take(k).drop_last() =~= xs.take(k - 1));
        assert(xs.take(k).last() == xs[k - 1]);
    }
}

proof fn lemma_tree_list(
    disk: Seq<u8>,
    bs: u32,
    node: Seq<u8>,
    d: nat,
    lo: int,
    hi: int,
    hops: nat,
)
    requires
        tree::sound(disk, bs, node, d, lo, hi),
        lo <= hi,
        0 < d <= hops,
    ensures
        extent::tree_leaves(disk, bs, node, hops) == Ok::<Seq<ExtentLeaf>, ExtentError>(
            list_leaves(disk, bs, extent::node_idxs(node), (hops - 1) as nat),
        ),
{
    let xs = extent::node_idxs(node);
    let n = extent::header(node).eh_entries as int;
    lemma_list_leaves(disk, bs, node, d, lo, hi, hops, n);
    assert(xs.take(n) =~= xs);
}

proof fn lemma_leaves_joined(
    disk: Seq<u8>,
    bs: u32,
    a: Seq<ExtentIdx>,
    b: Seq<ExtentIdx>,
    hops: nat,
)
    ensures
        list_leaves(disk, bs, a + b, hops) == list_leaves(disk, bs, a, hops) + list_leaves(
            disk,
            bs,
            b,
            hops,
        ),
    decreases b.len(),
{
    if b.len() == 0 {
        assert(a + b =~= a);
        assert(list_leaves(disk, bs, a, hops) + list_leaves(disk, bs, b, hops) =~= list_leaves(
            disk,
            bs,
            a,
            hops,
        ));
    } else {
        assert((a + b).drop_last() =~= a + b.drop_last());
        assert((a + b).last() == b.last());
        lemma_leaves_joined(disk, bs, a, b.drop_last(), hops);
        let x = extent::tree_leaves(
            disk,
            bs,
            block_device::block_at(disk, bs, b.last().child())->Ok_0,
            hops,
        )->Ok_0;
        assert((list_leaves(disk, bs, a, hops) + list_leaves(disk, bs, b.drop_last(), hops)) + x
            =~= list_leaves(disk, bs, a, hops) + (list_leaves(
            disk,
            bs,
            b.drop_last(),
            hops,
        ) + x));
    }
}

/// A list without its last entries is sound, up to the first of them; so are they.
#[verifier::rlimit(100)]
#[verifier::spinoff_prover]
proof fn lemma_list_cut(
    disk: Seq<u8>,
    bs: u32,
    xs: Seq<ExtentIdx>,
    d: nat,
    lo: int,
    hi: int,
    k: int,
)
    requires
        sound_list(disk, bs, xs, d, lo, hi),
        0 <= k < xs.len(),
    ensures
        sound_list(disk, bs, xs.take(k), d, lo, xs[k].ei_block as int),
        sound_list(disk, bs, xs.skip(k), d, xs[k].ei_block as int, hi),
        lo <= xs[k].ei_block <= hi,
        xs.take(k) + xs.skip(k) == xs,
{
    let a = xs.take(k);
    let b = xs.skip(k);
    lemma_list_keys(disk, bs, xs, d, lo, hi);
    assert(lo <= xs[k].ei_block);
    assert forall|j: int| 0 <= j < a.len() implies {
        &&& lo <= (#[trigger] a[j]).ei_block <= tree::upper(a, j, xs[k].ei_block as int)
            <= xs[k].ei_block
        &&& sound_child(disk, bs, a[j], tree::upper(a, j, xs[k].ei_block as int), d)
    } by {
        assert(a[j] == xs[j]);
        assert(sound_child(disk, bs, xs[j], tree::upper(xs, j, hi), d));
        assert(tree::upper(a, j, xs[k].ei_block as int) == tree::upper(xs, j, hi));
        if j + 1 < k {
            assert(a[j + 1] == xs[j + 1]);
            assert(xs[j + 1].ei_block <= xs[k].ei_block);
        }
    }
    assert forall|j: int| 0 <= j < b.len() implies {
        &&& xs[k].ei_block <= (#[trigger] b[j]).ei_block <= tree::upper(b, j, hi) <= hi
        &&& sound_child(disk, bs, b[j], tree::upper(b, j, hi), d)
    } by {
        assert(b[j] == xs[k + j]);
        assert(sound_child(disk, bs, xs[k + j], tree::upper(xs, k + j, hi), d));
        if j + 1 < b.len() {
            assert(b[j + 1] == xs[k + j + 1]);
        }
        assert(xs[k].ei_block <= xs[k + j].ei_block);
    }
    assert(a + b =~= xs);
}

/// Keys do not decrease.
proof fn lemma_list_keys(
    disk: Seq<u8>,
    bs: u32,
    xs: Seq<ExtentIdx>,
    d: nat,
    lo: int,
    hi: int,
)
    requires
        sound_list(disk, bs, xs, d, lo, hi),
    ensures
        forall|i: int, j: int|
            0 <= i <= j < xs.len() ==> (#[trigger] xs[i]).ei_block <= (
            #[trigger] xs[j]).ei_block,
{
    assert forall|i: int, j: int| 0 <= i <= j < xs.len() implies (#[trigger] xs[i]).ei_block <= (
    #[trigger] xs[j]).ei_block by {
        lemma_list_key(disk, bs, xs, d, lo, hi, i, j);
    }
}

proof fn lemma_list_key(
    disk: Seq<u8>,
    bs: u32,
    xs: Seq<ExtentIdx>,
    d: nat,
    lo: int,
    hi: int,
    i: int,
    j: int,
)
    requires
        sound_list(disk, bs, xs, d, lo, hi),
        0 <= i <= j < xs.len(),
    ensures
        xs[i].ei_block <= xs[j].ei_block,
    decreases j - i,
{
    if i < j {
        lemma_list_key(disk, bs, xs, d, lo, hi, i + 1, j);
        assert(xs[i].ei_block <= tree::upper(xs, i, hi));
    }
}

/// Lists one behind the other are a list.
proof fn lemma_list_joined(
    disk: Seq<u8>,
    bs: u32,
    a: Seq<ExtentIdx>,
    b: Seq<ExtentIdx>,
    d: nat,
    lo: int,
    m: int,
    hi: int,
)
    requires
        sound_list(disk, bs, a, d, lo, m),
        sound_list(disk, bs, b, d, m, hi),
        lo <= m <= hi,
        b.len() > 0 ==> b[0].ei_block == m,
        b.len() == 0 ==> m == hi,
    ensures
        sound_list(disk, bs, a + b, d, lo, hi),
{
    let xs = a + b;
    assert forall|k: int| 0 <= k < xs.len() implies {
        &&& lo <= (#[trigger] xs[k]).ei_block <= tree::upper(xs, k, hi) <= hi
        &&& sound_child(disk, bs, xs[k], tree::upper(xs, k, hi), d)
    } by {
        if k < a.len() {
            assert(xs[k] == a[k]);
            assert(sound_child(disk, bs, a[k], tree::upper(a, k, m), d));
            if k + 1 < a.len() {
                assert(xs[k + 1] == a[k + 1]);
            } else if b.len() > 0 {
                assert(xs[k + 1] == b[0]);
            }
            assert(tree::upper(xs, k, hi) == tree::upper(a, k, m));
        } else {
            let j = k - a.len();
            assert(xs[k] == b[j]);
            assert(sound_child(disk, bs, b[j], tree::upper(b, j, hi), d));
            if k + 1 < xs.len() {
                assert(xs[k + 1] == b[j + 1]);
            }
        }
    }
}

/// A node under an entry is sound, over part of its range.
proof fn lemma_under(
    disk: Seq<u8>,
    bs: u32,
    x: ExtentIdx,
    end: int,
    d: nat,
    b: u64,
) -> (r: (nat, int, int))
    requires
        sound_child(disk, bs, x, end, d),
        x.ei_block <= end,
        under(disk, bs, x, d, b),
    ensures
        r.0 <= d,
        b != x.child() ==> r.0 < d,
        x.ei_block <= r.1 <= r.2 <= end,
        block_device::block_at(disk, bs, b) is Ok,
        tree::inhabited(block_device::block_at(disk, bs, b)->Ok_0),
        tree::sound(disk, bs, block_device::block_at(disk, bs, b)->Ok_0, r.0, r.1, r.2),
{
    reveal(sound_child);
    if b == x.child() {
        (d, x.ei_block as int, end)
    } else {
        let c = block_device::block_at(disk, bs, x.child())->Ok_0;
        tree::lemma_node_of(disk, bs, c, d, x.ei_block as int, end, b)
    }
}

/// No block is under two entries that follow one another.
proof fn lemma_apart(
    disk: Seq<u8>,
    bs: u32,
    x: ExtentIdx,
    end: int,
    y: ExtentIdx,
    stop: int,
    d: nat,
    b: u64,
)
    requires
        sound_child(disk, bs, x, end, d),
        x.ei_block <= end <= y.ei_block <= stop,
        sound_child(disk, bs, y, stop, d),
    ensures
        !(under(disk, bs, x, d, b) && under(disk, bs, y, d, b)),
{
    if under(disk, bs, x, d, b) && under(disk, bs, y, d, b) {
        let node = block_device::block_at(disk, bs, b)->Ok_0;
        let r = lemma_under(disk, bs, x, end, d, b);
        let q = lemma_under(disk, bs, y, stop, d, b);
        assert(r.0 == extent::header(node).eh_depth && q.0 == extent::header(node).eh_depth);
        tree::law_listed(disk, bs, node, r.0, r.1, r.2, r.0);
        tree::law_listed(disk, bs, node, q.0, q.1, q.2, q.0);
        let v = extent::tree_leaves(disk, bs, node, r.0)->Ok_0;
        assert(v[0].blocks() > 0);
    }
}

/// A node is not under itself.
proof fn lemma_not_own(disk: Seq<u8>, bs: u32, x: ExtentIdx, end: int, d: nat)
    requires
        sound_child(disk, bs, x, end, d),
        x.ei_block <= end,
    ensures
        !tree::within(
            disk,
            bs,
            block_device::block_at(disk, bs, x.child())->Ok_0,
            d,
            x.child(),
        ),
{
    reveal(sound_child);
    let c = block_device::block_at(disk, bs, x.child())->Ok_0;
    if tree::within(disk, bs, c, d, x.child()) {
        let r = tree::lemma_node_of(disk, bs, c, d, x.ei_block as int, end, x.child());
    }
}

/// A list depends on the blocks under it alone.
proof fn lemma_list_stays(
    disk: Seq<u8>,
    other: Seq<u8>,
    bs: u32,
    xs: Seq<ExtentIdx>,
    d: nat,
    lo: int,
    hi: int,
    hops: nat,
)
    requires
        sound_list(disk, bs, xs, d, lo, hi),
        d <= hops,
        forall|b: u64| #[trigger]
            under_list(disk, bs, xs, d, b) ==> block_device::block_at(other, bs, b)
                == block_device::block_at(disk, bs, b),
    ensures
        sound_list(other, bs, xs, d, lo, hi),
        list_leaves(other, bs, xs, hops) == list_leaves(disk, bs, xs, hops),
        forall|b: u64| #[trigger]
            under_list(other, bs, xs, d, b) == under_list(disk, bs, xs, d, b),
{
    assert forall|k: int| 0 <= k < xs.len() implies {
        &&& lo <= (#[trigger] xs[k]).ei_block <= tree::upper(xs, k, hi) <= hi
        &&& sound_child(other, bs, xs[k], tree::upper(xs, k, hi), d)
    } by {
        lemma_child_stays(disk, other, bs, xs, d, lo, hi, hops, k);
    }
    assert forall|b: u64| #[trigger] under_list(other, bs, xs, d, b) == under_list(
        disk,
        bs,
        xs,
        d,
        b,
    ) by {
        if under_list(other, bs, xs, d, b) {
            let k = choose|k: int| 0 <= k < xs.len() && under(other, bs, #[trigger] xs[k], d, b);
            lemma_child_stays(disk, other, bs, xs, d, lo, hi, hops, k);
            assert(under(disk, bs, xs[k], d, b));
        }
        if under_list(disk, bs, xs, d, b) {
            let k = choose|k: int| 0 <= k < xs.len() && under(disk, bs, #[trigger] xs[k], d, b);
            lemma_child_stays(disk, other, bs, xs, d, lo, hi, hops, k);
            assert(under(other, bs, xs[k], d, b));
        }
    }
    lemma_leaves_stay(disk, other, bs, xs, d, lo, hi, hops, xs.len() as int);
    assert(xs.take(xs.len() as int) =~= xs);
}

proof fn lemma_child_stays(
    disk: Seq<u8>,
    other: Seq<u8>,
    bs: u32,
    xs: Seq<ExtentIdx>,
    d: nat,
    lo: int,
    hi: int,
    hops: nat,
    k: int,
)
    requires
        sound_list(disk, bs, xs, d, lo, hi),
        d <= hops,
        0 <= k < xs.len(),
        forall|b: u64| #[trigger]
            under_list(disk, bs, xs, d, b) ==> block_device::block_at(other, bs, b)
                == block_device::block_at(disk, bs, b),
    ensures
        ({
            let c = block_device::block_at(disk, bs, xs[k].child());
            &&& block_device::block_at(other, bs, xs[k].child()) == c
            &&& c is Ok
            &&& sound_child(other, bs, xs[k], tree::upper(xs, k, hi), d)
            &&& extent::tree_leaves(other, bs, c->Ok_0, hops) == extent::tree_leaves(
                disk,
                bs,
                c->Ok_0,
                hops,
            )
            &&& forall|b: u64| #[trigger]
                under(other, bs, xs[k], d, b) == under(disk, bs, xs[k], d, b)
        }),
{
    reveal(sound_child);
    let end = tree::upper(xs, k, hi);
    assert(sound_child(disk, bs, xs[k], end, d));
    let c = block_device::block_at(disk, bs, xs[k].child());
    assert(under(disk, bs, xs[k], d, xs[k].child()));
    assert(under_list(disk, bs, xs, d, xs[k].child()));
    assert forall|b: u64| #[trigger]
        tree::within(disk, bs, c->Ok_0, d, b) implies block_device::block_at(other, bs, b)
        == block_device::block_at(disk, bs, b) by {
        assert(under(disk, bs, xs[k], d, b));
        assert(under_list(disk, bs, xs, d, b));
    }
    tree::law_depends_on_nodes(
        disk,
        other,
        bs,
        c->Ok_0,
        d,
        xs[k].ei_block as int,
        end,
        hops,
    );
    assert forall|b: u64| #[trigger] under(other, bs, xs[k], d, b) == under(
        disk,
        bs,
        xs[k],
        d,
        b,
    ) by {
        assert(tree::within(other, bs, c->Ok_0, d, b) == tree::within(disk, bs, c->Ok_0, d, b));
    }
}

proof fn lemma_leaves_stay(
    disk: Seq<u8>,
    other: Seq<u8>,
    bs: u32,
    xs: Seq<ExtentIdx>,
    d: nat,
    lo: int,
    hi: int,
    hops: nat,
    k: int,
)
    requires
        sound_list(disk, bs, xs, d, lo, hi),
        d <= hops,
        0 <= k <= xs.len(),
        forall|b: u64| #[trigger]
            under_list(disk, bs, xs, d, b) ==> block_device::block_at(other, bs, b)
                == block_device::block_at(disk, bs, b),
    ensures
        list_leaves(other, bs, xs.take(k), hops) == list_leaves(disk, bs, xs.take(k), hops),
    decreases k,
{
    if k > 0 {
        lemma_leaves_stay(disk, other, bs, xs, d, lo, hi, hops, k - 1);
        lemma_child_stays(disk, other, bs, xs, d, lo, hi, hops, k - 1);
        assert(xs.take(k).drop_last() =~= xs.take(k - 1));
        assert(xs.take(k).last() == xs[k - 1]);
    }
}

/// A tree is sound over a range that starts earlier too.
proof fn lemma_lower_start(
    disk: Seq<u8>,
    bs: u32,
    node: Seq<u8>,
    d: nat,
    lo: int,
    hi: int,
    lower: int,
)
    requires
        tree::sound(disk, bs, node, d, lo, hi),
        lower <= lo,
    ensures
        tree::sound(disk, bs, node, d, lower, hi),
{
    if d > 0 {
        lemma_as_list(disk, bs, node, d, lo, hi);
        lemma_as_list(disk, bs, node, d, lower, hi);
        let xs = extent::node_idxs(node);
        assert forall|k: int| 0 <= k < xs.len() implies {
            &&& lower <= (#[trigger] xs[k]).ei_block <= tree::upper(xs, k, hi) <= hi
            &&& sound_child(disk, bs, xs[k], tree::upper(xs, k, hi), (d - 1) as nat)
        } by {
            assert(lo <= xs[k].ei_block);
        }
    }
}

/// What is gained between two lists is gained by the whole.
proof fn lemma_gains_between(
    pre: Seq<ExtentLeaf>,
    v: Seq<ExtentLeaf>,
    w: Seq<ExtentLeaf>,
    post: Seq<ExtentLeaf>,
    at: int,
    phys: u64,
    count: int,
)
    requires
        gains(v, w, at, phys, count),
        0 <= at,
        0 < count,
        v.len() > 0,
        post.len() > 0 ==> at + count <= tree::end_of(post),
        forall|l: u64| at <= l < at + count ==> #[trigger] extent::mapped(pre, l) is None,
    ensures
        gains(pre + v + post, pre + w + post, at, phys, count),
{
    assert(w.len() > 0);
    if post.len() > 0 {
        assert((pre + v + post).last() == post.last());
        assert((pre + w + post).last() == post.last());
    } else {
        assert((pre + v + post).last() == v.last());
        assert((pre + w + post).last() == w.last());
    }
    assert forall|l: u64| #[trigger]
        extent::mapped(pre + w + post, l) == (if at <= l < at + count {
            Some((phys + (l - at)) as u64)
        } else {
            extent::mapped(pre + v + post, l)
        }) by {
        tree::lemma_mapped_joined(pre + v, post, l);
        tree::lemma_mapped_joined(pre, v, l);
        tree::lemma_mapped_joined(pre + w, post, l);
        tree::lemma_mapped_joined(pre, w, l);
        assert(extent::mapped(w, l) == (if at <= l < at + count {
            Some((phys + (l - at)) as u64)
        } else {
            extent::mapped(v, l)
        }));
        if at <= l < at + count {
            assert(extent::mapped(pre, l) is None);
        }
    }
}

/// Nothing is mapped outside of a range.
proof fn lemma_out_of_range(v: Seq<ExtentLeaf>, lo: int, hi: int, l: u64)
    requires
        tree::in_range(v, lo, hi),
        l < lo || hi <= l,
    ensures
        extent::mapped(v, l) is None,
{
    assert forall|i: int| 0 <= i < v.len() implies !(#[trigger] v[i]).covers(l) by {
        assert(lo <= v[i].ee_block && v[i].ee_block + v[i].blocks() <= hi);
    }
    tree::lemma_mapped_none(v, l);
}

/// An extent that is put between others.
proof fn lemma_leaf_between(
    v: Seq<ExtentLeaf>,
    lo: int,
    hi: int,
    i: int,
    leaf: ExtentLeaf,
)
    requires
        tree::in_range(v, lo, hi),
        0 <= i <= v.len(),
        0 < leaf.ee_len <= MAX_INIT_LEN,
        lo <= leaf.ee_block,
        leaf.ee_block + leaf.ee_len <= hi,
        i > 0 ==> v[i - 1].ee_block + v[i - 1].blocks() <= leaf.ee_block,
        i < v.len() ==> leaf.ee_block + leaf.ee_len <= v[i].ee_block,
    ensures
        tree::in_range(v.insert(i, leaf), lo, hi),
        gains(
            v,
            v.insert(i, leaf),
            leaf.ee_block as int,
            leaf.phys() as u64,
            leaf.ee_len as int,
        ),
{
    let w = v.insert(i, leaf);
    let n = v.len() as int;
    if i == n {
        assert(w.last() == leaf);
    } else {
        assert(w.last() == v.last());
        if i < n - 1 {
            assert(v[i].ee_block + v[i].blocks() <= v[n - 1].ee_block);
        }
    }
    assert forall|j: int| #![trigger w[j]] 0 <= j < w.len() implies lo <= w[j].ee_block
        && w[j].blocks() > 0 && w[j].ee_block + w[j].blocks() <= hi by {
        if j < i {
            assert(w[j] == v[j]);
        } else if j > i {
            assert(w[j] == v[j - 1]);
        }
    }
    assert forall|a: int, b: int| #![trigger w[a], w[b]] 0 <= a < b < w.len() implies w[a].ee_block
        + w[a].blocks() <= w[b].ee_block by {
        if b < i {
            assert(w[a] == v[a] && w[b] == v[b]);
        } else if b == i {
            assert(w[a] == v[a]);
            if a < i - 1 {
                assert(v[a].ee_block + v[a].blocks() <= v[i - 1].ee_block);
            }
        } else if a < i {
            assert(w[a] == v[a] && w[b] == v[b - 1]);
        } else if a == i {
            assert(w[b] == v[b - 1]);
            if b - 1 > i {
                assert(v[i].ee_block + v[i].blocks() <= v[b - 1].ee_block);
            }
        } else {
            assert(w[a] == v[a - 1] && w[b] == v[b - 1]);
        }
    }
    assert forall|l: u64| #[trigger]
        extent::mapped(w, l) == (if leaf.ee_block <= l < leaf.ee_block + leaf.ee_len {
            Some((leaf.phys() as u64 + (l - leaf.ee_block)) as u64)
        } else {
            extent::mapped(v, l)
        }) by {
        if leaf.ee_block <= l < leaf.ee_block + leaf.ee_len {
            tree::lemma_mapped_some(w, lo, hi, l, i);
        } else if exists|j: int| 0 <= j < v.len() && (#[trigger] v[j]).covers(l) {
            let j = choose|j: int| 0 <= j < v.len() && (#[trigger] v[j]).covers(l);
            tree::lemma_mapped_some(v, lo, hi, l, j);
            let k = if j < i {
                j
            } else {
                j + 1
            };
            assert(w[k] == v[j]);
            tree::lemma_mapped_some(w, lo, hi, l, k);
        } else {
            tree::lemma_mapped_none(v, l);
            assert forall|j: int| 0 <= j < w.len() implies !(#[trigger] w[j]).covers(l) by {
                if j < i {
                    assert(w[j] == v[j]);
                } else if j > i {
                    assert(w[j] == v[j - 1]);
                }
            }
            tree::lemma_mapped_none(w, l);
        }
    }
}

/// An extent that is made longer between others.
proof fn lemma_leaf_longer(
    v: Seq<ExtentLeaf>,
    lo: int,
    hi: int,
    i: int,
    count: u16,
)
    requires
        tree::in_range(v, lo, hi),
        0 <= i < v.len(),
        0 < v[i].ee_len,
        v[i].ee_len + count <= MAX_INIT_LEN,
        v[i].ee_block + v[i].ee_len + count <= hi,
        i + 1 < v.len() ==> v[i].ee_block + v[i].ee_len + count <= v[i + 1].ee_block,
    ensures
        ({
            let w = v.update(i, ExtentLeaf { ee_len: (v[i].ee_len + count) as u16, ..v[i] });
            &&& tree::in_range(w, lo, hi)
            &&& gains(
                v,
                w,
                v[i].ee_block + v[i].ee_len,
                (v[i].phys() + v[i].ee_len) as u64,
                count as int,
            )
        }),
{
    let w = v.update(i, ExtentLeaf { ee_len: (v[i].ee_len + count) as u16, ..v[i] });
    let n = v.len() as int;
    if i < n - 1 {
        assert(w.last() == v.last());
        if i + 1 < n - 1 {
            assert(v[i + 1].ee_block + v[i + 1].blocks() <= v[n - 1].ee_block);
        }
    }
    assert forall|j: int| #![trigger w[j]] 0 <= j < w.len() implies lo <= w[j].ee_block
        && w[j].blocks() > 0 && w[j].ee_block + w[j].blocks() <= hi by {
        assert(lo <= v[j].ee_block && v[j].blocks() > 0);
    }
    assert forall|a: int, b: int| #![trigger w[a], w[b]] 0 <= a < b < w.len() implies w[a].ee_block
        + w[a].blocks() <= w[b].ee_block by {
        assert(v[a].ee_block + v[a].blocks() <= v[b].ee_block);
        if a == i && b > i + 1 {
            assert(v[i + 1].ee_block + v[i + 1].blocks() <= v[b].ee_block);
        }
    }
    let at = v[i].ee_block + v[i].ee_len;
    assert forall|l: u64| #[trigger]
        extent::mapped(w, l) == (if at <= l < at + count {
            Some(((v[i].phys() + v[i].ee_len) as u64 + (l - at)) as u64)
        } else {
            extent::mapped(v, l)
        }) by {
        if at <= l < at + count {
            tree::lemma_mapped_some(w, lo, hi, l, i);
        } else if exists|j: int| 0 <= j < v.len() && (#[trigger] v[j]).covers(l) {
            let j = choose|j: int| 0 <= j < v.len() && (#[trigger] v[j]).covers(l);
            tree::lemma_mapped_some(v, lo, hi, l, j);
            assert(w[j].covers(l));
            tree::lemma_mapped_some(w, lo, hi, l, j);
        } else {
            tree::lemma_mapped_none(v, l);
            assert forall|j: int| 0 <= j < w.len() implies !(#[trigger] w[j]).covers(l) by {
                assert(!v[j].covers(l));
            }
            tree::lemma_mapped_none(w, l);
        }
    }
}

/// Whether the nodes under `node2` in `s` are those under `node` in `st`, or new.
pub open spec fn owned(
    st: FsState,
    s: FsState,
    sb: Superblock,
    num: u32,
    node: Seq<u8>,
    node2: Seq<u8>,
    d: nat,
) -> bool {
    forall|x: u64| #[trigger]
        tree::within(s.disk, sb.block_size, node2, d, x) ==> (tree::within(
            st.disk,
            sb.block_size,
            node,
            d,
            x,
        ) || !volume::used(st, sb, x)) && volume::kept_apart(s, sb, num, x) && volume::agrees(
            s,
            sb.block_size,
            x,
        )
}

/// The extents under a node.
pub open spec fn leaves_of(s: FsState, sb: Superblock, node: Seq<u8>, hops: nat) -> Seq<
    ExtentLeaf,
> {
    extent::tree_leaves(s.disk, sb.block_size, node, hops)->Ok_0
}

/// What putting blocks in under a sound node comes to.
#[verifier::opaque]
pub open spec fn well_put(
    st: FsState,
    s: FsState,
    sb: Superblock,
    num: u32,
    node: Seq<u8>,
    d: nat,
    lo: int,
    hi: int,
    hops: nat,
    at: u32,
    phys: u64,
    count: u16,
    p: extent_insert::Put,
) -> bool {
    let bs = sb.block_size;
    &&& touched(st, s, sb, num, node, d)
    &&& p.node.len() == node.len()
    &&& extent::header(p.node).eh_max == extent::header(node).eh_max
    &&& extent::header(p.node).eh_entries > 0
    &&& owned(st, s, sb, num, node, p.node, d)
    &&& match p.split {
        None => {
            &&& tree::sound(s.disk, bs, p.node, d, lo, hi)
            &&& gains(
                leaves_of(st, sb, node, hops),
                leaves_of(s, sb, p.node, hops),
                at as int,
                phys,
                count as int,
            )
        },
        Some((key, fresh)) => {
            let other = block_device::block_at(s.disk, bs, fresh);
            &&& fresh_block(st, s, sb, num, fresh)
            &&& other is Ok
            &&& tree::inhabited(other->Ok_0)
            &&& extent::header(node).eh_max >= 2
            &&& lo <= key <= hi
            &&& tree::sound(s.disk, bs, p.node, d, lo, key as int)
            &&& tree::sound(s.disk, bs, other->Ok_0, d, key as int, hi)
            &&& owned(st, s, sb, num, node, other->Ok_0, d)
            &&& gains(
                leaves_of(st, sb, node, hops),
                leaves_of(s, sb, p.node, hops) + leaves_of(s, sb, other->Ok_0, hops),
                at as int,
                phys,
                count as int,
            )
        },
    }
}

proof fn lemma_untouched(st: FsState, sb: Superblock, num: u32, node: Seq<u8>, d: nat)
    requires
        volume::sound_volume(st, sb),
        volume::sound_slot(st, sb, num),
    ensures
        touched(st, st, sb, num, node, d),
{
}

/// Extents in order, cut in two.
proof fn lemma_range_cut(w: Seq<ExtentLeaf>, lo: int, hi: int, m: int)
    requires
        tree::in_range(w, lo, hi),
        0 <= m < w.len(),
    ensures
        tree::in_range(w.take(m), lo, w[m].ee_block as int),
        tree::in_range(w.skip(m), w[m].ee_block as int, hi),
        lo <= w[m].ee_block <= hi,
{
    let a = w.take(m);
    let b = w.skip(m);
    assert forall|i: int| #![trigger a[i]] 0 <= i < a.len() implies lo <= a[i].ee_block
        && a[i].blocks() > 0 && a[i].ee_block + a[i].blocks() <= w[m].ee_block by {
        assert(a[i] == w[i]);
    }
    assert forall|i: int, j: int| #![trigger a[i], a[j]] 0 <= i < j < a.len() implies a[i].ee_block
        + a[i].blocks() <= a[j].ee_block by {
        assert(a[i] == w[i] && a[j] == w[j]);
    }
    assert forall|i: int| #![trigger b[i]] 0 <= i < b.len() implies w[m].ee_block <= b[i].ee_block
        && b[i].blocks() > 0 && b[i].ee_block + b[i].blocks() <= hi by {
        assert(b[i] == w[m + i]);
        if i > 0 {
            assert(w[m].ee_block + w[m].blocks() <= w[m + i].ee_block);
        }
    }
    assert forall|i: int, j: int| #![trigger b[i], b[j]] 0 <= i < j < b.len() implies b[i].ee_block
        + b[i].blocks() <= b[j].ee_block by {
        assert(b[i] == w[m + i] && b[j] == w[m + j]);
    }
    assert(w[m].ee_block + w[m].blocks() <= hi);
}

/// The extents of a leaf node in which one was made longer.
proof fn lemma_joined(node: Seq<u8>, i: int, count: u16)
    requires
        tree::sound_node(node, 0),
        0 < i <= extent::header(node).eh_entries,
        extent::node_leaves(node)[i - 1].ee_len + count <= MAX_INIT_LEN,
    ensures
        ({
            let v = extent::node_leaves(node);
            let node2 = extent_insert::joined(node, i, count);
            &&& tree::sound_node(node2, 0)
            &&& node2.len() == node.len()
            &&& extent::header(node2) == extent::header(node)
            &&& extent::node_leaves(node2) == v.update(
                i - 1,
                ExtentLeaf { ee_len: (v[i - 1].ee_len + count) as u16, ..v[i - 1] },
            )
        }),
{
    broadcast use crate::bytes::group_codec;

    let v = extent::node_leaves(node);
    let node2 = extent_insert::joined(node, i, count);
    let n = extent::header(node).eh_entries as int;
    let w = v.update(
        i - 1,
        ExtentLeaf { ee_len: (v[i - 1].ee_len + count) as u16, ..v[i - 1] },
    );
    assert forall|j: int| 0 <= j < n implies extent::node_leaves(node2)[j] == w[j] by {
        if j != i - 1 {
            nodes::lemma_same_entry(
                node2,
                extent::entry_offset(j),
                node,
                extent::entry_offset(j),
            );
        }
    }
    assert(extent::node_leaves(node2) =~= w);
}

/// Putting blocks into a leaf node.
#[verifier::rlimit(100)]
proof fn lemma_leaf_put(
    st: FsState,
    sb: Superblock,
    num: u32,
    hint: u64,
    node: Seq<u8>,
    b: u64,
    lo: int,
    hi: int,
    hops: nat,
    at: u32,
    phys: u64,
    count: u16,
)
    requires
        volume::sound_volume(st, sb),
        volume::sound_slot(st, sb, num),
        tree::sound(st.disk, sb.block_size, node, 0, lo, hi),
        node.len() <= sb.block_size,
        lo <= at,
        at + count <= hi,
        0 < count <= MAX_INIT_LEN,
        phys + count <= volume::BLOCK_END,
        extent::header(node).eh_max >= 2 || extent::header(node).eh_entries < extent::header(
            node,
        ).eh_max || extent_insert::joins(
            node,
            extent_insert::place(node, at, extent::header(node).eh_entries as int),
            at,
            phys,
            count,
        ),
        extent_insert::leaf_put(st, sb, hint, node, b, at, phys, count).1 is Ok,
    ensures
        ({
            let (s, r) = extent_insert::leaf_put(st, sb, hint, node, b, at, phys, count);
            well_put(st, s, sb, num, node, 0, lo, hi, hops, at, phys, count, r->Ok_0)
        }),
{
    reveal(well_put);
    let bs = sb.block_size;
    let n = extent::header(node).eh_entries as int;
    let v = extent::node_leaves(node);
    let i = extent_insert::place(node, at, n);
    let (s, r) = extent_insert::leaf_put(st, sb, hint, node, b, at, phys, count);
    let p = r->Ok_0;
    lemma_place(node, at, n);
    lemma_untouched(st, sb, num, node, 0);
    if i > 0 {
        assert(v[i - 1] == extent::leaf_at(node, extent::entry_offset(i - 1)));
    }
    if i < n {
        lemma_key(node, i);
    }
    if extent_insert::joins(node, i, at, phys, count) {
        lemma_joined(node, i, count);
        lemma_leaf_longer(v, lo, hi, i - 1, count);
    } else {
        let entry = extent_write::leaf_bytes(at, count, phys);
        let leaf = extent::leaf_at(entry, 0);
        lemma_entries(at, count, phys);
        let m = lemma_entry_put(st, sb, num, hint, node, b, 0, i, entry);
        let w = v.insert(i, leaf);
        lemma_leaf_between(v, lo, hi, i, leaf);
        if p.split is None {
            assert(w.take(m) =~= w);
        } else {
            lemma_range_cut(w, lo, hi, m);
            assert(w.take(m) + w.skip(m) =~= w);
        }
    }
}

/// An inner node with another key.
pub proof fn lemma_with_key(node: Seq<u8>, d: nat, k: int, key: u32)
    requires
        tree::sound_node(node, d),
        0 <= k < extent::header(node).eh_entries,
    ensures
        ({
            let xs = extent::node_idxs(node);
            let node2 = extent_insert::with_key(node, k, key);
            &&& tree::sound_node(node2, d)
            &&& node2.len() == node.len()
            &&& extent::header(node2) == extent::header(node)
            &&& extent::node_idxs(node2) == xs.update(k, ExtentIdx { ei_block: key, ..xs[k] })
        }),
{
    broadcast use crate::bytes::group_codec;

    let xs = extent::node_idxs(node);
    let node2 = extent_insert::with_key(node, k, key);
    let n = extent::header(node).eh_entries as int;
    let ys = xs.update(k, ExtentIdx { ei_block: key, ..xs[k] });
    assert forall|j: int| 0 <= j < n implies extent::node_idxs(node2)[j] == ys[j] by {
        if j != k {
            nodes::lemma_same_entry(
                node2,
                extent::entry_offset(j),
                node,
                extent::entry_offset(j),
            );
        }
    }
    assert(extent::node_idxs(node2) =~= ys);
}

/// A tree whose nodes are not the block that is written stays as it is.
#[verifier::rlimit(100)]
proof fn lemma_beside_write(
    st: FsState,
    s1: FsState,
    s2: FsState,
    sb: Superblock,
    num: u32,
    child: Seq<u8>,
    node: Seq<u8>,
    d: nat,
    lo: int,
    hi: int,
    hops: nat,
    c: u64,
)
    requires
        tree::sound(s1.disk, sb.block_size, node, d, lo, hi),
        lo <= hi,
        d <= hops,
        owned(st, s1, sb, num, child, node, d),
        volume::used(st, sb, c),
        !tree::within(st.disk, sb.block_size, child, d, c),
        forall|b: u64| #![trigger block_device::block_at(s2.disk, sb.block_size, b)]
            b != c ==> volume::untouched(s1, s2, sb.block_size, b),
    ensures
        tree::sound(s2.disk, sb.block_size, node, d, lo, hi),
        leaves_of(s2, sb, node, hops) == leaves_of(s1, sb, node, hops),
        forall|b: u64| #[trigger]
            tree::within(s2.disk, sb.block_size, node, d, b) == tree::within(
                s1.disk,
                sb.block_size,
                node,
                d,
                b,
            ),
        !tree::within(s2.disk, sb.block_size, node, d, c),
{
    assert forall|b: u64| #[trigger]
        tree::within(s1.disk, sb.block_size, node, d, b) implies block_device::block_at(
        s2.disk,
        sb.block_size,
        b,
    ) == block_device::block_at(s1.disk, sb.block_size, b) by {
        assert(b != c);
    }
    tree::law_depends_on_nodes(s1.disk, s2.disk, sb.block_size, node, d, lo, hi, hops);
    assert(tree::within(s1.disk, sb.block_size, node, d, c) ==> false);
}

/// The entries that stand for the child once it was written, and for the node that
/// was split off it.
pub open spec fn middle(x: ExtentIdx, at: u32, p: extent_insert::Put) -> Seq<ExtentIdx> {
    let x2 = ExtentIdx { ei_block: extent_insert::lesser(x.ei_block, at), ..x };
    match p.split {
        None => seq![x2],
        Some((key, fresh)) => seq![x2, extent::idx_at(extent_write::idx_bytes(key, fresh), 0)],
    }
}

/// Whether the nodes under a list in `s` are those under `node` in `st`, or new.
pub open spec fn list_owned(
    st: FsState,
    s: FsState,
    sb: Superblock,
    num: u32,
    node: Seq<u8>,
    d: nat,
    xs: Seq<ExtentIdx>,
) -> bool {
    forall|b: u64| #[trigger]
        under_list(s.disk, sb.block_size, xs, (d - 1) as nat, b) ==> (tree::within(
            st.disk,
            sb.block_size,
            node,
            d,
            b,
        ) || !volume::used(st, sb, b)) && volume::kept_apart(s, sb, num, b) && volume::agrees(
            s,
            sb.block_size,
            b,
        )
}

/// What an inner node and what lies under it have to be like.
pub open spec fn in_tree(
    st: FsState,
    sb: Superblock,
    num: u32,
    node: Seq<u8>,
    d: nat,
    lo: int,
    hi: int,
) -> bool {
    &&& volume::sound_volume(st, sb)
    &&& volume::sound_slot(st, sb, num)
    &&& tree::sound(st.disk, sb.block_size, node, d, lo, hi)
    &&& forall|b: u64| #[trigger]
        tree::within(st.disk, sb.block_size, node, d, b) ==> volume::kept_apart(st, sb, num, b)
            && volume::agrees(st, sb.block_size, b)
}

/// The child once it was written.
#[verifier::rlimit(100)]
proof fn lemma_middle(
    st: FsState,
    s1: FsState,
    sb: Superblock,
    num: u32,
    x: ExtentIdx,
    end: int,
    d: nat,
    hops: nat,
    at: u32,
    phys: u64,
    count: u16,
    p: extent_insert::Put,
)
    requires
        volume::sound_volume(st, sb),
        sound_child(st.disk, sb.block_size, x, end, d),
        x.ei_block <= end,
        at <= end,
        d <= hops,
        volume::kept_apart(st, sb, num, x.child()),
        ({
            let child = block_device::block_at(st.disk, sb.block_size, x.child())->Ok_0;
            &&& child.len() == sb.block_size
            &&& well_put(
                st,
                s1,
                sb,
                num,
                child,
                d,
                extent_insert::lesser(x.ei_block, at) as int,
                end,
                hops,
                at,
                phys,
                count,
                p,
            )
        }),
        extent_write::wrote(s1, sb, x.child(), p.node).1 is Ok,
    ensures
        ({
            let s2 = extent_write::wrote(s1, sb, x.child(), p.node).0;
            let child = block_device::block_at(st.disk, sb.block_size, x.child())->Ok_0;
            let mid = middle(x, at, p);
            let lo = extent_insert::lesser(x.ei_block, at) as int;
            &&& sound_list(s2.disk, sb.block_size, mid, d, lo, end)
            &&& gains(
                leaves_of(st, sb, child, hops),
                list_leaves(s2.disk, sb.block_size, mid, hops),
                at as int,
                phys,
                count as int,
            )
            &&& forall|b: u64| #[trigger]
                under_list(s2.disk, sb.block_size, mid, d, b) ==> (b == x.child()
                    || tree::within(st.disk, sb.block_size, child, d, b) || !volume::used(
                    st,
                    sb,
                    b,
                )) && volume::kept_apart(s2, sb, num, b) && volume::agrees(
                    s2,
                    sb.block_size,
                    b,
                )
            &&& volume::later(st, s2, sb)
            &&& volume::sound_volume(s2, sb)
            &&& volume::sound_slot(s2, sb, num)
            &&& volume::table_block(s2.gdt, sb, num) == volume::table_block(st.gdt, sb, num)
            &&& forall|c: u64| #![trigger block_device::block_at(s2.disk, sb.block_size, c)]
                volume::used(st, sb, c) && !volume::is_group_block(st.gdt, sb, c) && c
                    != x.child() && !tree::within(st.disk, sb.block_size, child, d, c)
                    ==> volume::untouched(st, s2, sb.block_size, c)
            &&& forall|c: u64|
                volume::agrees(st, sb.block_size, c) ==> #[trigger] volume::agrees(
                    s2,
                    sb.block_size,
                    c,
                )
            &&& p.split is Some ==> p.split->Some_0.1 < volume::BLOCK_END
        }),
{
    reveal(well_put);
    reveal(sound_child);
    let bs = sb.block_size;
    let c = x.child();
    let child = block_device::block_at(st.disk, bs, c)->Ok_0;
    let lo = extent_insert::lesser(x.ei_block, at) as int;
    let s2 = extent_write::wrote(s1, sb, c, p.node).0;
    let mid = middle(x, at, p);
    volume::lemma_volume_kept(st, s1, sb);
    assert(!volume::is_group_block(s1.gdt, sb, c));
    volume::lemma_stored(s1, sb, c, p.node);
    volume::lemma_slot_kept(s1, s2, sb, num);
    append::lemma_later(st, s1, s2, sb);
    volume::lemma_volume_kept(s1, s2, sb);
    lemma_not_own(st.disk, bs, x, end, d);
    let x2 = mid[0];
    assert(x2.child() == c);
    assert(tree::inhabited(p.node));
    assert forall|b: u64| volume::kept_apart(s1, sb, num, b) implies #[trigger]
        volume::kept_apart(s2, sb, num, b) by {
        assert(volume::used(s2, sb, b));
    }
    assert(volume::kept_apart(s2, sb, num, c)) by {
        assert(volume::used(s2, sb, c));
    }
    match p.split {
        None => {
            lemma_beside_write(st, s1, s2, sb, num, child, p.node, d, lo, end, hops, c);
            assert(sound_child(s2.disk, bs, x2, end, d));
            assert(mid.drop_last() =~= Seq::<ExtentIdx>::empty());
            assert(list_leaves(s2.disk, bs, mid, hops) =~= leaves_of(s2, sb, p.node, hops)) by {
                reveal_with_fuel(list_leaves, 2);
            }
            assert forall|b: u64| #[trigger] under_list(s2.disk, bs, mid, d, b) implies (b == c
                || tree::within(st.disk, bs, child, d, b) || !volume::used(st, sb, b))
                && volume::kept_apart(s2, sb, num, b) && volume::agrees(s2, bs, b) by {
                let k = choose|k: int|
                    0 <= k < mid.len() && under(s2.disk, bs, #[trigger] mid[k], d, b);
                assert(mid[k] == x2);
                if b != c {
                    assert(tree::within(s2.disk, bs, p.node, d, b));
                    assert(tree::within(s1.disk, bs, p.node, d, b));
                    assert(volume::kept_apart(s1, sb, num, b));
                    assert(volume::agrees(s1, bs, b));
                }
            }
        },
        Some((key, fresh)) => {
            let other = block_device::block_at(s1.disk, bs, fresh)->Ok_0;
            lemma_entries(key, 0, fresh);
            let x3 = mid[1];
            assert(x3.ei_block == key && x3.child() == fresh);
            assert(fresh != c);
            lemma_beside_write(st, s1, s2, sb, num, child, p.node, d, lo, key as int, hops, c);
            lemma_beside_write(st, s1, s2, sb, num, child, other, d, key as int, end, hops, c);
            assert(block_device::block_at(s2.disk, bs, fresh) == block_device::block_at(
                s1.disk,
                bs,
                fresh,
            ));
            assert(sound_child(s2.disk, bs, x2, key as int, d));
            assert(sound_child(s2.disk, bs, x3, end, d));
            assert forall|k: int| 0 <= k < mid.len() implies {
                &&& lo <= (#[trigger] mid[k]).ei_block <= tree::upper(mid, k, end) <= end
                &&& sound_child(s2.disk, bs, mid[k], tree::upper(mid, k, end), d)
            } by {
                if k == 0 {
                    assert(mid[k] == x2);
                    assert(tree::upper(mid, 0, end) == key);
                } else {
                    assert(mid[k] == x3);
                }
            }
            assert(list_leaves(s2.disk, bs, mid, hops) =~= leaves_of(s2, sb, p.node, hops)
                + leaves_of(s2, sb, other, hops)) by {
                assert(mid.drop_last() =~= seq![x2]);
                assert(seq![x2].drop_last() =~= Seq::<ExtentIdx>::empty());
                reveal_with_fuel(list_leaves, 3);
            }
            assert forall|b: u64| #[trigger] under_list(s2.disk, bs, mid, d, b) implies (b == c
                || tree::within(st.disk, bs, child, d, b) || !volume::used(st, sb, b))
                && volume::kept_apart(s2, sb, num, b) && volume::agrees(s2, bs, b) by {
                let k = choose|k: int|
                    0 <= k < mid.len() && under(s2.disk, bs, #[trigger] mid[k], d, b);
                if k == 0 {
                    if b != c {
                        assert(tree::within(s2.disk, bs, p.node, d, b));
                        assert(tree::within(s1.disk, bs, p.node, d, b));
                        assert(volume::kept_apart(s1, sb, num, b));
                        assert(volume::agrees(s1, bs, b));
                    }
                } else {
                    assert(mid[k] == x3);
                    if b != fresh {
                        assert(tree::within(s2.disk, bs, other, d, b));
                        assert(tree::within(s1.disk, bs, other, d, b));
                    }
                    assert(volume::kept_apart(s1, sb, num, b));
                    assert(volume::agrees(s1, bs, b));
                }
            }
        },
    }
    assert forall|b: u64| #![trigger block_device::block_at(s2.disk, bs, b)]
        volume::used(st, sb, b) && !volume::is_group_block(st.gdt, sb, b) && b != c
            && !tree::within(st.disk, bs, child, d, b) implies volume::untouched(
        st,
        s2,
        bs,
        b,
    ) by {
        assert(volume::untouched(s1, s2, bs, b));
        assert(block_device::block_at(s1.disk, bs, b) == block_device::block_at(s2.disk, bs, b));
        assert(volume::untouched(st, s1, bs, b));
    }
}

/// What is under the entries in front of one is not under it.
#[verifier::rlimit(100)]
proof fn lemma_front(
    disk: Seq<u8>,
    bs: u32,
    a: Seq<ExtentIdx>,
    x: ExtentIdx,
    lo: int,
    end: int,
    e: nat,
    b: u64,
)
    requires
        sound_list(disk, bs, a, e, lo, x.ei_block as int),
        sound_child(disk, bs, x, end, e),
        x.ei_block <= end,
        under_list(disk, bs, a, e, b),
    ensures
        !under(disk, bs, x, e, b),
{
    let j = choose|j: int| 0 <= j < a.len() && under(disk, bs, #[trigger] a[j], e, b);
    let stop = tree::upper(a, j, x.ei_block as int);
    assert(sound_child(disk, bs, a[j], stop, e));
    lemma_apart(disk, bs, a[j], stop, x, end, e, b);
}

/// What is under the entries behind one is not under it.
#[verifier::rlimit(100)]
proof fn lemma_back(
    disk: Seq<u8>,
    bs: u32,
    x: ExtentIdx,
    z: Seq<ExtentIdx>,
    end: int,
    hi: int,
    e: nat,
    b: u64,
)
    requires
        sound_list(disk, bs, z, e, end, hi),
        sound_child(disk, bs, x, end, e),
        x.ei_block <= end,
        under_list(disk, bs, z, e, b),
    ensures
        !under(disk, bs, x, e, b),
{
    let j = choose|j: int| 0 <= j < z.len() && under(disk, bs, #[trigger] z[j], e, b);
    let stop = tree::upper(z, j, hi);
    assert(sound_child(disk, bs, z[j], stop, e));
    lemma_apart(disk, bs, x, end, z[j], stop, e, b);
}

/// What is under some of the entries is under all of them.
proof fn lemma_under_all(
    disk: Seq<u8>,
    bs: u32,
    xs: Seq<ExtentIdx>,
    k: int,
    e: nat,
    b: u64,
)
    requires
        0 <= k < xs.len(),
        under_list(disk, bs, xs.take(k), e, b) || under_list(disk, bs, xs.skip(k + 1), e, b)
            || under(disk, bs, xs[k], e, b),
    ensures
        under_list(disk, bs, xs, e, b),
{
    let a = xs.take(k);
    let z = xs.skip(k + 1);
    if under_list(disk, bs, a, e, b) {
        let j = choose|j: int| 0 <= j < a.len() && under(disk, bs, #[trigger] a[j], e, b);
        assert(a[j] == xs[j]);
    } else if under_list(disk, bs, z, e, b) {
        let j = choose|j: int| 0 <= j < z.len() && under(disk, bs, #[trigger] z[j], e, b);
        assert(z[j] == xs[k + 1 + j]);
    } else {
        assert(under(disk, bs, xs[k], e, b));
    }
}

/// The entries around one.
proof fn lemma_around(
    disk: Seq<u8>,
    bs: u32,
    xs: Seq<ExtentIdx>,
    e: nat,
    lo: int,
    hi: int,
    k: int,
)
    requires
        sound_list(disk, bs, xs, e, lo, hi),
        0 <= k < xs.len(),
    ensures
        ({
            let a = xs.take(k);
            let z = xs.skip(k + 1);
            let end = tree::upper(xs, k, hi);
            &&& sound_child(disk, bs, xs[k], end, e)
            &&& lo <= xs[k].ei_block <= end <= hi
            &&& sound_list(disk, bs, a, e, lo, xs[k].ei_block as int)
            &&& sound_list(disk, bs, z, e, end, hi)
            &&& z.len() > 0 ==> z[0].ei_block == end
            &&& z.len() == 0 ==> end == hi
            &&& xs == a + seq![xs[k]] + z
        }),
{
    lemma_list_cut(disk, bs, xs, e, lo, hi, k);
    if k + 1 < xs.len() {
        lemma_list_cut(disk, bs, xs, e, lo, hi, k + 1);
    }
    assert(sound_child(disk, bs, xs[k], tree::upper(xs, k, hi), e));
    assert(xs =~= xs.take(k) + seq![xs[k]] + xs.skip(k + 1));
}

/// The extents under the entries around one.
proof fn lemma_leaves_around(disk: Seq<u8>, bs: u32, xs: Seq<ExtentIdx>, k: int, h: nat)
    requires
        0 <= k < xs.len(),
    ensures
        list_leaves(disk, bs, xs, h) == list_leaves(disk, bs, xs.take(k), h)
            + extent::tree_leaves(
            disk,
            bs,
            block_device::block_at(disk, bs, xs[k].child())->Ok_0,
            h,
        )->Ok_0 + list_leaves(disk, bs, xs.skip(k + 1), h),
{
    let a = xs.take(k);
    let z = xs.skip(k + 1);
    let one = seq![xs[k]];
    assert(xs =~= a + one + z);
    lemma_leaves_joined(disk, bs, a + one, z, h);
    lemma_leaves_joined(disk, bs, a, one, h);
    assert(one.drop_last() =~= Seq::<ExtentIdx>::empty());
    assert(list_leaves(disk, bs, one, h) =~= extent::tree_leaves(
        disk,
        bs,
        block_device::block_at(disk, bs, xs[k].child())->Ok_0,
        h,
    )->Ok_0) by {
        reveal_with_fuel(list_leaves, 2);
    }
}

/// The other entries lead to what they led to.
#[verifier::rlimit(100)]
proof fn lemma_others_stay(
    st: FsState,
    s2: FsState,
    sb: Superblock,
    xs: Seq<ExtentIdx>,
    e: nat,
    lo: int,
    hi: int,
    h: nat,
    k: int,
)
    requires
        sound_list(st.disk, sb.block_size, xs, e, lo, hi),
        0 <= k < xs.len(),
        e <= h,
        forall|b: u64| #[trigger]
            under_list(st.disk, sb.block_size, xs, e, b) && !under(
                st.disk,
                sb.block_size,
                xs[k],
                e,
                b,
            ) ==> block_device::block_at(s2.disk, sb.block_size, b) == block_device::block_at(
                st.disk,
                sb.block_size,
                b,
            ),
    ensures
        ({
            let bs = sb.block_size;
            let a = xs.take(k);
            let z = xs.skip(k + 1);
            let end = tree::upper(xs, k, hi);
            &&& sound_list(s2.disk, bs, a, e, lo, xs[k].ei_block as int)
            &&& sound_list(s2.disk, bs, z, e, end, hi)
            &&& list_leaves(s2.disk, bs, a, h) == list_leaves(st.disk, bs, a, h)
            &&& list_leaves(s2.disk, bs, z, h) == list_leaves(st.disk, bs, z, h)
            &&& forall|b: u64| #[trigger]
                under_list(s2.disk, bs, a, e, b) ==> under_list(st.disk, bs, xs, e, b)
            &&& forall|b: u64| #[trigger]
                under_list(s2.disk, bs, z, e, b) ==> under_list(st.disk, bs, xs, e, b)
        }),
{
    let bs = sb.block_size;
    let x = xs[k];
    let a = xs.take(k);
    let z = xs.skip(k + 1);
    let end = tree::upper(xs, k, hi);
    lemma_around(st.disk, bs, xs, e, lo, hi, k);
    assert forall|b: u64| #[trigger]
        under_list(st.disk, bs, a, e, b) implies block_device::block_at(s2.disk, bs, b)
        == block_device::block_at(st.disk, bs, b) by {
        lemma_front(st.disk, bs, a, x, lo, end, e, b);
        lemma_under_all(st.disk, bs, xs, k, e, b);
    }
    assert forall|b: u64| #[trigger]
        under_list(st.disk, bs, z, e, b) implies block_device::block_at(s2.disk, bs, b)
        == block_device::block_at(st.disk, bs, b) by {
        lemma_back(st.disk, bs, x, z, end, hi, e, b);
        lemma_under_all(st.disk, bs, xs, k, e, b);
    }
    lemma_list_stays(st.disk, s2.disk, bs, a, e, lo, x.ei_block as int, h);
    lemma_list_stays(st.disk, s2.disk, bs, z, e, end, hi, h);
    assert forall|b: u64| #[trigger] under_list(s2.disk, bs, a, e, b) implies under_list(
        st.disk,
        bs,
        xs,
        e,
        b,
    ) by {
        assert(under_list(st.disk, bs, a, e, b));
        lemma_under_all(st.disk, bs, xs, k, e, b);
    }
    assert forall|b: u64| #[trigger] under_list(s2.disk, bs, z, e, b) implies under_list(
        st.disk,
        bs,
        xs,
        e,
        b,
    ) by {
        assert(under_list(st.disk, bs, z, e, b));
        lemma_under_all(st.disk, bs, xs, k, e, b);
    }
}

/// Whether `xs` is the list of entries of an inner node once something was put in
/// under it.
pub open spec fn well_listed(
    st: FsState,
    s2: FsState,
    sb: Superblock,
    num: u32,
    node: Seq<u8>,
    d: nat,
    lo: int,
    hi: int,
    hops: nat,
    at: u32,
    phys: u64,
    count: u16,
    xs: Seq<ExtentIdx>,
) -> bool {
    &&& touched(st, s2, sb, num, node, d)
    &&& xs.len() > 0
    &&& sound_list(s2.disk, sb.block_size, xs, (d - 1) as nat, lo, hi)
    &&& list_owned(st, s2, sb, num, node, d, xs)
    &&& gains(
        leaves_of(st, sb, node, hops),
        list_leaves(s2.disk, sb.block_size, xs, (hops - 1) as nat),
        at as int,
        phys,
        count as int,
    )
}

/// What writing the child of an inner node changes.
#[verifier::rlimit(100)]
proof fn lemma_relisted_frame(
    st: FsState,
    s1: FsState,
    sb: Superblock,
    num: u32,
    node: Seq<u8>,
    d: nat,
    lo: int,
    hi: int,
    hops: nat,
    at: u32,
    phys: u64,
    count: u16,
    k: int,
    p: extent_insert::Put,
)
    requires
        in_tree(st, sb, num, node, d, lo, hi),
        0 < d <= hops,
        lo <= at,
        at + count <= hi,
        0 < count,
        0 <= k < extent::header(node).eh_entries,
        k > 0 ==> extent::node_idxs(node)[k].ei_block <= at,
        at + count <= tree::upper(extent::node_idxs(node), k, hi),
        ({
            let xs = extent::node_idxs(node);
            let x = xs[k];
            let child = block_device::block_at(st.disk, sb.block_size, x.child())->Ok_0;
            &&& child.len() == sb.block_size
            &&& well_put(
                st,
                s1,
                sb,
                num,
                child,
                (d - 1) as nat,
                extent_insert::lesser(x.ei_block, at) as int,
                tree::upper(xs, k, hi),
                (hops - 1) as nat,
                at,
                phys,
                count,
                p,
            )
            &&& extent_write::wrote(s1, sb, x.child(), p.node).1 is Ok
        }),
    ensures
        ({
            let xs = extent::node_idxs(node);
            let s2 = extent_write::wrote(s1, sb, xs[k].child(), p.node).0;
            &&& touched(st, s2, sb, num, node, d)
            &&& forall|b: u64| #[trigger]
                under_list(st.disk, sb.block_size, xs, (d - 1) as nat, b) && !under(
                    st.disk,
                    sb.block_size,
                    xs[k],
                    (d - 1) as nat,
                    b,
                ) ==> block_device::block_at(s2.disk, sb.block_size, b) == block_device::block_at(
                    st.disk,
                    sb.block_size,
                    b,
                )
        }),
{
    let bs = sb.block_size;
    let xs = extent::node_idxs(node);
    let x = xs[k];
    let end = tree::upper(xs, k, hi);
    let e = (d - 1) as nat;
    let h = (hops - 1) as nat;
    let child = block_device::block_at(st.disk, bs, x.child())->Ok_0;
    let s2 = extent_write::wrote(s1, sb, x.child(), p.node).0;
    lemma_as_list(st.disk, bs, node, d, lo, hi);
    lemma_around(st.disk, bs, xs, e, lo, hi, k);
    assert(under(st.disk, bs, x, e, x.child()));
    lemma_under_all(st.disk, bs, xs, k, e, x.child());
    assert(tree::within(st.disk, bs, node, d, x.child()));
    lemma_middle(st, s1, sb, num, x, end, e, h, at, phys, count, p);
    assert forall|b: u64| #[trigger]
        under_list(st.disk, bs, xs, e, b) && !under(
            st.disk,
            bs,
            xs[k],
            e,
            b,
        ) implies block_device::block_at(s2.disk, bs, b) == block_device::block_at(
        st.disk,
        bs,
        b,
    ) by {
        assert(tree::within(st.disk, bs, node, d, b));
        assert(volume::kept_apart(st, sb, num, b));
        lemma_child_found(st.disk, bs, x, end, e);
        assert(volume::untouched(st, s2, bs, b));
    }
    assert(touched(st, s2, sb, num, node, d)) by {
        assert forall|c: u64| #![trigger block_device::block_at(s2.disk, bs, c)]
            volume::used(st, sb, c) && !volume::is_group_block(st.gdt, sb, c) && !tree::within(
                st.disk,
                bs,
                node,
                d,
                c,
            ) implies volume::untouched(st, s2, bs, c) by {
            if tree::within(st.disk, bs, child, e, c) {
                lemma_child_found(st.disk, bs, x, end, e);
                assert(under(st.disk, bs, x, e, c));
                lemma_under_all(st.disk, bs, xs, k, e, c);
            }
        }
    }
}

/// What the entries lead to then is the file's own.
#[verifier::rlimit(100)]
proof fn lemma_relisted_owned(
    st: FsState,
    s1: FsState,
    sb: Superblock,
    num: u32,
    node: Seq<u8>,
    d: nat,
    lo: int,
    hi: int,
    hops: nat,
    at: u32,
    phys: u64,
    count: u16,
    k: int,
    p: extent_insert::Put,
)
    requires
        in_tree(st, sb, num, node, d, lo, hi),
        0 < d <= hops,
        lo <= at,
        at + count <= hi,
        0 < count,
        0 <= k < extent::header(node).eh_entries,
        k > 0 ==> extent::node_idxs(node)[k].ei_block <= at,
        at + count <= tree::upper(extent::node_idxs(node), k, hi),
        ({
            let xs = extent::node_idxs(node);
            let x = xs[k];
            let child = block_device::block_at(st.disk, sb.block_size, x.child())->Ok_0;
            &&& child.len() == sb.block_size
            &&& well_put(
                st,
                s1,
                sb,
                num,
                child,
                (d - 1) as nat,
                extent_insert::lesser(x.ei_block, at) as int,
                tree::upper(xs, k, hi),
                (hops - 1) as nat,
                at,
                phys,
                count,
                p,
            )
            &&& extent_write::wrote(s1, sb, x.child(), p.node).1 is Ok
        }),
    ensures
        ({
            let xs = extent::node_idxs(node);
            let s2 = extent_write::wrote(s1, sb, xs[k].child(), p.node).0;
            list_owned(
                st,
                s2,
                sb,
                num,
                node,
                d,
                xs.take(k) + middle(xs[k], at, p) + xs.skip(k + 1),
            )
        }),
{
    let bs = sb.block_size;
    let xs = extent::node_idxs(node);
    let x = xs[k];
    let a = xs.take(k);
    let z = xs.skip(k + 1);
    let mid = middle(x, at, p);
    let end = tree::upper(xs, k, hi);
    let e = (d - 1) as nat;
    let h = (hops - 1) as nat;
    let child = block_device::block_at(st.disk, bs, x.child())->Ok_0;
    let s2 = extent_write::wrote(s1, sb, x.child(), p.node).0;
    lemma_as_list(st.disk, bs, node, d, lo, hi);
    lemma_around(st.disk, bs, xs, e, lo, hi, k);
    assert(under(st.disk, bs, x, e, x.child()));
    lemma_under_all(st.disk, bs, xs, k, e, x.child());
    assert(tree::within(st.disk, bs, node, d, x.child()));
    lemma_middle(st, s1, sb, num, x, end, e, h, at, phys, count, p);
    lemma_relisted_frame(st, s1, sb, num, node, d, lo, hi, hops, at, phys, count, k, p);
    lemma_others_stay(st, s2, sb, xs, e, lo, hi, h, k);
    let all = a + mid + z;
    assert(list_owned(st, s2, sb, num, node, d, all)) by {
        assert forall|b: u64| #[trigger] under_list(s2.disk, bs, all, e, b) implies (tree::within(
            st.disk,
            bs,
            node,
            d,
            b,
        ) || !volume::used(st, sb, b)) && volume::kept_apart(s2, sb, num, b) && volume::agrees(
            s2,
            bs,
            b,
        ) by {
            lemma_under_parts(s2.disk, bs, a, mid, z, e, b);
            if under_list(s2.disk, bs, mid, e, b) {
                if tree::within(st.disk, bs, child, e, b) {
                    lemma_child_found(st.disk, bs, x, end, e);
                    assert(under(st.disk, bs, x, e, b));
                    lemma_under_all(st.disk, bs, xs, k, e, b);
                }
            } else {
                assert(under_list(st.disk, bs, xs, e, b));
                assert(tree::within(st.disk, bs, node, d, b));
                assert(volume::kept_apart(st, sb, num, b));
                volume::lemma_volume_kept(st, s2, sb);
                assert(volume::used(s2, sb, b));
            }
        }
    }
}

/// The child of an inner node once it was written, as entries of that node.
#[verifier::rlimit(100)]
#[verifier::spinoff_prover]
proof fn lemma_relisted_middle(
    st: FsState,
    s1: FsState,
    sb: Superblock,
    num: u32,
    node: Seq<u8>,
    d: nat,
    lo: int,
    hi: int,
    hops: nat,
    at: u32,
    phys: u64,
    count: u16,
    k: int,
    p: extent_insert::Put,
)
    requires
        in_tree(st, sb, num, node, d, lo, hi),
        0 < d <= hops,
        lo <= at,
        at + count <= hi,
        0 < count,
        0 <= k < extent::header(node).eh_entries,
        k > 0 ==> extent::node_idxs(node)[k].ei_block <= at,
        at + count <= tree::upper(extent::node_idxs(node), k, hi),
        ({
            let xs = extent::node_idxs(node);
            let x = xs[k];
            let child = block_device::block_at(st.disk, sb.block_size, x.child())->Ok_0;
            &&& child.len() == sb.block_size
            &&& well_put(
                st,
                s1,
                sb,
                num,
                child,
                (d - 1) as nat,
                extent_insert::lesser(x.ei_block, at) as int,
                tree::upper(xs, k, hi),
                (hops - 1) as nat,
                at,
                phys,
                count,
                p,
            )
            &&& extent_write::wrote(s1, sb, x.child(), p.node).1 is Ok
        }),
    ensures
        ({
            let bs = sb.block_size;
            let xs = extent::node_idxs(node);
            let x = xs[k];
            let s2 = extent_write::wrote(s1, sb, x.child(), p.node).0;
            let mid = middle(x, at, p);
            let h = (hops - 1) as nat;
            let child = block_device::block_at(st.disk, bs, x.child())->Ok_0;
            let low = extent_insert::lesser(x.ei_block, at) as int;
            &&& mid.len() > 0
            &&& mid[0].ei_block == low
            &&& sound_list(
                s2.disk,
                bs,
                mid,
                (d - 1) as nat,
                low,
                tree::upper(xs, k, hi),
            )
            &&& gains(
                leaves_of(st, sb, child, h),
                list_leaves(s2.disk, bs, mid, h),
                at as int,
                phys,
                count as int,
            )
            &&& p.split is Some ==> p.split->Some_0.1 < volume::BLOCK_END
        }),
{
    let bs = sb.block_size;
    let xs = extent::node_idxs(node);
    let x = xs[k];
    let end = tree::upper(xs, k, hi);
    let e = (d - 1) as nat;
    let h = (hops - 1) as nat;
    lemma_as_list(st.disk, bs, node, d, lo, hi);
    lemma_around(st.disk, bs, xs, e, lo, hi, k);
    assert(under(st.disk, bs, x, e, x.child()));
    lemma_under_all(st.disk, bs, xs, k, e, x.child());
    assert(tree::within(st.disk, bs, node, d, x.child()));
    lemma_middle(st, s1, sb, num, x, end, e, h, at, phys, count, p);
}

/// The other entries once the child was written.
#[verifier::rlimit(100)]
#[verifier::spinoff_prover]
proof fn lemma_relisted_beside(
    st: FsState,
    s1: FsState,
    sb: Superblock,
    num: u32,
    node: Seq<u8>,
    d: nat,
    lo: int,
    hi: int,
    hops: nat,
    at: u32,
    phys: u64,
    count: u16,
    k: int,
    p: extent_insert::Put,
)
    requires
        in_tree(st, sb, num, node, d, lo, hi),
        0 < d <= hops,
        lo <= at,
        at + count <= hi,
        0 < count,
        0 <= k < extent::header(node).eh_entries,
        k > 0 ==> extent::node_idxs(node)[k].ei_block <= at,
        at + count <= tree::upper(extent::node_idxs(node), k, hi),
        ({
            let xs = extent::node_idxs(node);
            let x = xs[k];
            let child = block_device::block_at(st.disk, sb.block_size, x.child())->Ok_0;
            &&& child.len() == sb.block_size
            &&& well_put(
                st,
                s1,
                sb,
                num,
                child,
                (d - 1) as nat,
                extent_insert::lesser(x.ei_block, at) as int,
                tree::upper(xs, k, hi),
                (hops - 1) as nat,
                at,
                phys,
                count,
                p,
            )
            &&& extent_write::wrote(s1, sb, x.child(), p.node).1 is Ok
        }),
    ensures
        ({
            let bs = sb.block_size;
            let xs = extent::node_idxs(node);
            let s2 = extent_write::wrote(s1, sb, xs[k].child(), p.node).0;
            let a = xs.take(k);
            let z = xs.skip(k + 1);
            let e = (d - 1) as nat;
            let h = (hops - 1) as nat;
            let end = tree::upper(xs, k, hi);
            &&& sound_list(s2.disk, bs, a, e, lo, xs[k].ei_block as int)
            &&& sound_list(s2.disk, bs, z, e, end, hi)
            &&& list_leaves(s2.disk, bs, a, h) == list_leaves(st.disk, bs, a, h)
            &&& list_leaves(s2.disk, bs, z, h) == list_leaves(st.disk, bs, z, h)
            &&& lo <= xs[k].ei_block <= end <= hi
            &&& z.len() > 0 ==> z[0].ei_block == end
            &&& z.len() == 0 ==> end == hi
        }),
{
    let bs = sb.block_size;
    let xs = extent::node_idxs(node);
    let e = (d - 1) as nat;
    let h = (hops - 1) as nat;
    let s2 = extent_write::wrote(s1, sb, xs[k].child(), p.node).0;
    lemma_as_list(st.disk, bs, node, d, lo, hi);
    lemma_around(st.disk, bs, xs, e, lo, hi, k);
    lemma_relisted_frame(st, s1, sb, num, node, d, lo, hi, hops, at, phys, count, k, p);
    lemma_others_stay(st, s2, sb, xs, e, lo, hi, h, k);
}

/// The entries once the child was written are in order, and map what was put.
#[verifier::rlimit(100)]
proof fn lemma_relisted_lists(
    st: FsState,
    s1: FsState,
    sb: Superblock,
    num: u32,
    node: Seq<u8>,
    d: nat,
    lo: int,
    hi: int,
    hops: nat,
    at: u32,
    phys: u64,
    count: u16,
    k: int,
    p: extent_insert::Put,
)
    requires
        in_tree(st, sb, num, node, d, lo, hi),
        0 < d <= hops,
        lo <= at,
        at + count <= hi,
        0 < count,
        0 <= k < extent::header(node).eh_entries,
        k > 0 ==> extent::node_idxs(node)[k].ei_block <= at,
        at + count <= tree::upper(extent::node_idxs(node), k, hi),
        ({
            let xs = extent::node_idxs(node);
            let x = xs[k];
            let child = block_device::block_at(st.disk, sb.block_size, x.child())->Ok_0;
            &&& child.len() == sb.block_size
            &&& well_put(
                st,
                s1,
                sb,
                num,
                child,
                (d - 1) as nat,
                extent_insert::lesser(x.ei_block, at) as int,
                tree::upper(xs, k, hi),
                (hops - 1) as nat,
                at,
                phys,
                count,
                p,
            )
            &&& extent_write::wrote(s1, sb, x.child(), p.node).1 is Ok
        }),
    ensures
        ({
            let bs = sb.block_size;
            let xs = extent::node_idxs(node);
            let s2 = extent_write::wrote(s1, sb, xs[k].child(), p.node).0;
            let all = xs.take(k) + middle(xs[k], at, p) + xs.skip(k + 1);
            &&& all.len() > 0
            &&& sound_list(s2.disk, bs, all, (d - 1) as nat, lo, hi)
            &&& gains(
                leaves_of(st, sb, node, hops),
                list_leaves(s2.disk, bs, all, (hops - 1) as nat),
                at as int,
                phys,
                count as int,
            )
            &&& p.split is Some ==> p.split->Some_0.1 < volume::BLOCK_END
        }),
{
    let bs = sb.block_size;
    let xs = extent::node_idxs(node);
    let x = xs[k];
    let a = xs.take(k);
    let z = xs.skip(k + 1);
    let mid = middle(x, at, p);
    let end = tree::upper(xs, k, hi);
    let e = (d - 1) as nat;
    let h = (hops - 1) as nat;
    let low = extent_insert::lesser(x.ei_block, at) as int;
    let s2 = extent_write::wrote(s1, sb, x.child(), p.node).0;
    lemma_relisted_middle(st, s1, sb, num, node, d, lo, hi, hops, at, phys, count, k, p);
    lemma_relisted_beside(st, s1, sb, num, node, d, lo, hi, hops, at, phys, count, k, p);
    lemma_spliced(s2.disk, bs, a, mid, z, e, lo, x.ei_block as int, low, end, hi, k, h);
    lemma_gained(st, s2, sb, node, d, lo, hi, hops, at, phys, count, k, mid);
}

/// The entries of an inner node once its child was written.
proof fn lemma_relisted(
    st: FsState,
    s1: FsState,
    sb: Superblock,
    num: u32,
    node: Seq<u8>,
    d: nat,
    lo: int,
    hi: int,
    hops: nat,
    at: u32,
    phys: u64,
    count: u16,
    k: int,
    p: extent_insert::Put,
)
    requires
        in_tree(st, sb, num, node, d, lo, hi),
        0 < d <= hops,
        lo <= at,
        at + count <= hi,
        0 < count,
        0 <= k < extent::header(node).eh_entries,
        k > 0 ==> extent::node_idxs(node)[k].ei_block <= at,
        at + count <= tree::upper(extent::node_idxs(node), k, hi),
        ({
            let xs = extent::node_idxs(node);
            let x = xs[k];
            let child = block_device::block_at(st.disk, sb.block_size, x.child())->Ok_0;
            &&& child.len() == sb.block_size
            &&& well_put(
                st,
                s1,
                sb,
                num,
                child,
                (d - 1) as nat,
                extent_insert::lesser(x.ei_block, at) as int,
                tree::upper(xs, k, hi),
                (hops - 1) as nat,
                at,
                phys,
                count,
                p,
            )
            &&& extent_write::wrote(s1, sb, x.child(), p.node).1 is Ok
        }),
    ensures
        ({
            let xs = extent::node_idxs(node);
            let s2 = extent_write::wrote(s1, sb, xs[k].child(), p.node).0;
            &&& well_listed(
                st,
                s2,
                sb,
                num,
                node,
                d,
                lo,
                hi,
                hops,
                at,
                phys,
                count,
                xs.take(k) + middle(xs[k], at, p) + xs.skip(k + 1),
            )
            &&& p.split is Some ==> p.split->Some_0.1 < volume::BLOCK_END
        }),
{
    lemma_relisted_frame(st, s1, sb, num, node, d, lo, hi, hops, at, phys, count, k, p);
    lemma_relisted_owned(st, s1, sb, num, node, d, lo, hi, hops, at, phys, count, k, p);
    lemma_relisted_lists(st, s1, sb, num, node, d, lo, hi, hops, at, phys, count, k, p);
}

proof fn lemma_child_found(disk: Seq<u8>, bs: u32, x: ExtentIdx, end: int, d: nat)
    requires
        sound_child(disk, bs, x, end, d),
    ensures
        block_device::block_at(disk, bs, x.child()) is Ok,
{
    reveal(sound_child);
}

/// New entries in the place of one.
proof fn lemma_spliced(
    disk: Seq<u8>,
    bs: u32,
    a: Seq<ExtentIdx>,
    mid: Seq<ExtentIdx>,
    z: Seq<ExtentIdx>,
    e: nat,
    lo: int,
    key: int,
    low: int,
    end: int,
    hi: int,
    k: int,
    h: nat,
)
    requires
        sound_list(disk, bs, a, e, lo, key),
        a.len() == k,
        k > 0 ==> key == low,
        lo <= low <= end <= hi,
        sound_list(disk, bs, mid, e, low, end),
        mid.len() > 0,
        mid[0].ei_block == low,
        sound_list(disk, bs, z, e, end, hi),
        z.len() > 0 ==> z[0].ei_block == end,
        z.len() == 0 ==> end == hi,
    ensures
        sound_list(disk, bs, a + mid + z, e, lo, hi),
        list_leaves(disk, bs, a + mid + z, h) == list_leaves(disk, bs, a, h) + list_leaves(
            disk,
            bs,
            mid,
            h,
        ) + list_leaves(disk, bs, z, h),
{
    lemma_list_joined(disk, bs, a, mid, e, lo, low, end);
    lemma_list_joined(disk, bs, a + mid, z, e, lo, end, hi);
    lemma_leaves_joined(disk, bs, a + mid, z, h);
    lemma_leaves_joined(disk, bs, a, mid, h);
}

/// What the new entries map.
#[verifier::rlimit(100)]
proof fn lemma_gained(
    st: FsState,
    s2: FsState,
    sb: Superblock,
    node: Seq<u8>,
    d: nat,
    lo: int,
    hi: int,
    hops: nat,
    at: u32,
    phys: u64,
    count: u16,
    k: int,
    mid: Seq<ExtentIdx>,
)
    requires
        tree::sound(st.disk, sb.block_size, node, d, lo, hi),
        lo <= hi,
        0 < d <= hops,
        0 <= k < extent::header(node).eh_entries,
        k > 0 ==> extent::node_idxs(node)[k].ei_block <= at,
        0 < count,
        at + count <= tree::upper(extent::node_idxs(node), k, hi),
        ({
            let bs = sb.block_size;
            let xs = extent::node_idxs(node);
            let h = (hops - 1) as nat;
            let a = xs.take(k);
            let z = xs.skip(k + 1);
            let child = block_device::block_at(st.disk, bs, xs[k].child())->Ok_0;
            &&& list_leaves(s2.disk, bs, a, h) == list_leaves(st.disk, bs, a, h)
            &&& list_leaves(s2.disk, bs, z, h) == list_leaves(st.disk, bs, z, h)
            &&& list_leaves(s2.disk, bs, a + mid + z, h) == list_leaves(s2.disk, bs, a, h)
                + list_leaves(s2.disk, bs, mid, h) + list_leaves(s2.disk, bs, z, h)
            &&& gains(
                leaves_of(st, sb, child, h),
                list_leaves(s2.disk, bs, mid, h),
                at as int,
                phys,
                count as int,
            )
        }),
    ensures
        gains(
            leaves_of(st, sb, node, hops),
            list_leaves(
                s2.disk,
                sb.block_size,
                extent::node_idxs(node).take(k) + mid + extent::node_idxs(node).skip(k + 1),
                (hops - 1) as nat,
            ),
            at as int,
            phys,
            count as int,
        ),
{
    let bs = sb.block_size;
    let xs = extent::node_idxs(node);
    let h = (hops - 1) as nat;
    let a = xs.take(k);
    let z = xs.skip(k + 1);
    let child = block_device::block_at(st.disk, bs, xs[k].child())->Ok_0;
    let pre = list_leaves(st.disk, bs, a, h);
    lemma_tree_list(st.disk, bs, node, d, lo, hi, hops);
    lemma_leaves_around(st.disk, bs, xs, k, h);
    lemma_list_leaves(st.disk, bs, node, d, lo, hi, hops, k);
    tree::lemma_children(st.disk, bs, node, d, lo, hi, hops, k);
    assert forall|l: u64| at <= l < at + count implies #[trigger] extent::mapped(
        pre,
        l,
    ) is None by {
        if k > 0 {
            lemma_out_of_range(pre, lo, xs[k].ei_block as int, l);
        } else {
            assert(a =~= Seq::<ExtentIdx>::empty());
            assert(pre =~= Seq::<ExtentLeaf>::empty());
        }
    }
    let n = xs.len() as int;
    let e = (d - 1) as nat;
    tree::law_listed(
        st.disk,
        bs,
        tree::child_of(st.disk, bs, node, k)->Ok_0,
        e,
        xs[k].ei_block as int,
        tree::upper(xs, k, hi),
        h,
    );
    if z.len() > 0 {
        let c = tree::child_of(st.disk, bs, node, n - 1)->Ok_0;
        tree::law_listed(
            st.disk,
            bs,
            c,
            e,
            xs[n - 1].ei_block as int,
            tree::upper(xs, n - 1, hi),
            h,
        );
        if k + 1 < n - 1 {
            tree::lemma_keys(st.disk, bs, node, d, lo, hi, k + 1, n - 1);
        }
        assert(z.last() == xs[n - 1]);
        assert(list_leaves(st.disk, bs, z, h).last() == leaves_of(st, sb, c, h).last());
    }
    lemma_gains_between(
        pre,
        leaves_of(st, sb, child, h),
        list_leaves(s2.disk, bs, mid, h),
        list_leaves(st.disk, bs, z, h),
        at as int,
        phys,
        count as int,
    );
}

proof fn lemma_under_parts(
    disk: Seq<u8>,
    bs: u32,
    a: Seq<ExtentIdx>,
    m: Seq<ExtentIdx>,
    z: Seq<ExtentIdx>,
    d: nat,
    b: u64,
)
    requires
        under_list(disk, bs, a + m + z, d, b),
    ensures
        under_list(disk, bs, a, d, b) || under_list(disk, bs, m, d, b) || under_list(
            disk,
            bs,
            z,
            d,
            b,
        ),
{
    let all = a + m + z;
    let k = choose|k: int| 0 <= k < all.len() && under(disk, bs, #[trigger] all[k], d, b);
    if k < a.len() {
        assert(all[k] == a[k]);
    } else if k < a.len() + m.len() {
        assert(all[k] == m[k - a.len()]);
    } else {
        assert(all[k] == z[k - a.len() - m.len()]);
    }
}

/// An inner node that has the new entries, or the two that share them.
#[verifier::rlimit(100)]
proof fn lemma_parent_put(
    st: FsState,
    s2: FsState,
    sb: Superblock,
    num: u32,
    hint: u64,
    node: Seq<u8>,
    b: u64,
    d: nat,
    lo: int,
    hi: int,
    hops: nat,
    at: u32,
    phys: u64,
    count: u16,
    k: int,
    p: extent_insert::Put,
)
    requires
        in_tree(st, sb, num, node, d, lo, hi),
        lo <= hi,
        0 < d <= hops,
        node.len() <= sb.block_size,
        extent::header(node).eh_max >= 2 || extent::header(node).eh_entries < extent::header(
            node,
        ).eh_max,
        0 <= k < extent::header(node).eh_entries,
        p.split is Some ==> p.split->Some_0.1 < volume::BLOCK_END,
        well_listed(
            st,
            s2,
            sb,
            num,
            node,
            d,
            lo,
            hi,
            hops,
            at,
            phys,
            count,
            extent::node_idxs(node).take(k) + middle(extent::node_idxs(node)[k], at, p)
                + extent::node_idxs(node).skip(k + 1),
        ),
        extent_insert::parent_put(s2, sb, hint, node, b, k, at, p).1 is Ok,
    ensures
        ({
            let (s, r) = extent_insert::parent_put(s2, sb, hint, node, b, k, at, p);
            well_put(st, s, sb, num, node, d, lo, hi, hops, at, phys, count, r->Ok_0)
        }),
{
    reveal(well_put);
    let bs = sb.block_size;
    let xs = extent::node_idxs(node);
    let x = xs[k];
    let key0 = extent_insert::lesser(extent_insert::key_at(node, k), at);
    let node2 = extent_insert::with_key(node, k, key0);
    let all = xs.take(k) + middle(x, at, p) + xs.skip(k + 1);
    let e = (d - 1) as nat;
    let h = (hops - 1) as nat;
    lemma_key(node, k);
    lemma_with_key(node, d, k, key0);
    let (s, r) = extent_insert::parent_put(s2, sb, hint, node, b, k, at, p);
    let q = r->Ok_0;
    match p.split {
        None => {
            assert(extent::node_idxs(node2) =~= all);
            lemma_as_list(s2.disk, bs, node2, d, lo, hi);
            lemma_tree_list(s2.disk, bs, node2, d, lo, hi, hops);
            assert(owned(st, s2, sb, num, node, node2, d));
        },
        Some((key, fresh)) => {
            let entry = extent_write::idx_bytes(key, fresh);
            lemma_entries(key, 0, fresh);
            let m = lemma_entry_put(s2, sb, num, hint, node2, b, d, k + 1, entry);
            assert(extent::node_idxs(node2).insert(k + 1, extent::idx_at(entry, 0)) =~= all);
            match q.split {
                None => {
                    assert(all.take(m) =~= all);
                    lemma_as_list(s2.disk, bs, q.node, d, lo, hi);
                    lemma_tree_list(s2.disk, bs, q.node, d, lo, hi, hops);
                    assert(owned(st, s2, sb, num, node, q.node, d));
                },
                Some((key2, fresh2)) => {
                    lemma_parted(
                        st,
                        s2,
                        s,
                        sb,
                        num,
                        node,
                        node2,
                        d,
                        lo,
                        hi,
                        hops,
                        at,
                        phys,
                        count,
                        all,
                        m,
                        q,
                    );
                },
            }
        },
    }
}

/// Two nodes that share the entries.
#[verifier::rlimit(100)]
proof fn lemma_parted(
    st: FsState,
    s2: FsState,
    s: FsState,
    sb: Superblock,
    num: u32,
    node: Seq<u8>,
    node2: Seq<u8>,
    d: nat,
    lo: int,
    hi: int,
    hops: nat,
    at: u32,
    phys: u64,
    count: u16,
    all: Seq<ExtentIdx>,
    m: int,
    q: extent_insert::Put,
)
    requires
        volume::sound_volume(st, sb),
        lo <= hi,
        0 < d <= hops,
        well_listed(st, s2, sb, num, node, d, lo, hi, hops, at, phys, count, all),
        touched(s2, s, sb, num, node2, 0),
        extent::header(node).eh_max >= 2,
        q.node.len() == node.len(),
        extent::header(q.node).eh_max == extent::header(node).eh_max,
        extent::header(q.node).eh_entries > 0,
        tree::sound_node(q.node, d),
        q.split is Some,
        0 < m < all.len(),
        extent::node_idxs(q.node) == all.take(m),
        ({
            let (key, fresh) = q.split->Some_0;
            let other = block_device::block_at(s.disk, sb.block_size, fresh);
            &&& fresh_block(s2, s, sb, num, fresh)
            &&& other is Ok
            &&& tree::sound_node(other->Ok_0, d)
            &&& tree::inhabited(other->Ok_0)
            &&& extent::node_idxs(other->Ok_0) == all.skip(m)
            &&& key == all[m].ei_block
        }),
    ensures
        well_put(st, s, sb, num, node, d, lo, hi, hops, at, phys, count, q),
{
    reveal(well_put);
    let bs = sb.block_size;
    let e = (d - 1) as nat;
    let h = (hops - 1) as nat;
    let (key, fresh) = q.split->Some_0;
    let other = block_device::block_at(s.disk, bs, fresh)->Ok_0;
    volume::lemma_volume_kept(st, s2, sb);
    volume::lemma_volume_kept(s2, s, sb);
    assert forall|b: u64| #[trigger]
        under_list(s2.disk, bs, all, e, b) implies block_device::block_at(s.disk, bs, b)
        == block_device::block_at(s2.disk, bs, b) by {
        assert(volume::kept_apart(s2, sb, num, b));
        assert(!tree::within(s2.disk, bs, node2, 0, b));
        assert(volume::untouched(s2, s, bs, b));
    }
    lemma_list_stays(s2.disk, s.disk, bs, all, e, lo, hi, h);
    lemma_list_cut(s.disk, bs, all, e, lo, hi, m);
    lemma_leaves_joined(s.disk, bs, all.take(m), all.skip(m), h);
    lemma_as_list(s.disk, bs, q.node, d, lo, key as int);
    lemma_as_list(s.disk, bs, other, d, key as int, hi);
    lemma_tree_list(s.disk, bs, q.node, d, lo, key as int, hops);
    lemma_tree_list(s.disk, bs, other, d, key as int, hi, hops);
    append::lemma_later(st, s2, s, sb);
    assert forall|b: u64| #[trigger] under_list(s2.disk, bs, all, e, b) implies (tree::within(
        st.disk,
        bs,
        node,
        d,
        b,
    ) || !volume::used(st, sb, b)) && volume::kept_apart(s, sb, num, b) && volume::agrees(
        s,
        bs,
        b,
    ) by {
        assert(volume::kept_apart(s2, sb, num, b));
        assert(volume::used(s, sb, b));
        assert(volume::agrees(s2, bs, b));
    }
    assert forall|b: u64| #[trigger] tree::within(s.disk, bs, q.node, d, b) implies under_list(
        s2.disk,
        bs,
        all,
        e,
        b,
    ) by {
        let t = all.take(m);
        let j = choose|j: int| 0 <= j < t.len() && under(s.disk, bs, #[trigger] t[j], e, b);
        assert(t[j] == all[j]);
        assert(under_list(s.disk, bs, all, e, b));
    }
    assert forall|b: u64| #[trigger] tree::within(s.disk, bs, other, d, b) implies under_list(
        s2.disk,
        bs,
        all,
        e,
        b,
    ) by {
        let t = all.skip(m);
        let j = choose|j: int| 0 <= j < t.len() && under(s.disk, bs, #[trigger] t[j], e, b);
        assert(t[j] == all[m + j]);
        assert(under_list(s.disk, bs, all, e, b));
    }
    assert(fresh_block(st, s, sb, num, fresh)) by {
        if volume::used(st, sb, fresh) {
            assert(volume::used(s2, sb, fresh));
        }
    }
    assert forall|c: u64| #![trigger block_device::block_at(s.disk, bs, c)]
        volume::used(st, sb, c) && !volume::is_group_block(st.gdt, sb, c) && !tree::within(
            st.disk,
            bs,
            node,
            d,
            c,
        ) implies volume::untouched(st, s, bs, c) by {
        assert(volume::used(s2, sb, c));
        assert(!tree::within(s2.disk, bs, node2, 0, c));
        assert(volume::untouched(s2, s, bs, c));
        assert(block_device::block_at(s2.disk, bs, c) == block_device::block_at(s.disk, bs, c));
        assert(volume::untouched(st, s2, bs, c));
    }
}

/// Putting blocks in under a sound node keeps it sound, and maps them.
#[verifier::rlimit(100)]
proof fn lemma_put_in(
    st: FsState,
    sb: Superblock,
    num: u32,
    hint: u64,
    node: Seq<u8>,
    b: u64,
    d: nat,
    lo: int,
    hi: int,
    hops: nat,
    at: u32,
    phys: u64,
    count: u16,
)
    requires
        in_tree(st, sb, num, node, d, lo, hi),
        d <= hops,
        node.len() <= sb.block_size,
        lo <= at,
        at + count <= hi,
        0 < count <= MAX_INIT_LEN,
        phys + count <= volume::BLOCK_END,
        extent::header(node).eh_max >= 2 || extent::header(node).eh_entries < extent::header(
            node,
        ).eh_max || d == 0 && extent_insert::joins(
            node,
            extent_insert::place(node, at, extent::header(node).eh_entries as int),
            at,
            phys,
            count,
        ),
        extent_insert::put_in(st, sb, hint, node, b, d, at, phys, count).1 is Ok,
    ensures
        ({
            let (s, r) = extent_insert::put_in(st, sb, hint, node, b, d, at, phys, count);
            well_put(st, s, sb, num, node, d, lo, hi, hops, at, phys, count, r->Ok_0)
        }),
    decreases d,
{
    reveal(sound_child);
    if d == 0 {
        lemma_leaf_put(st, sb, num, hint, node, b, lo, hi, hops, at, phys, count);
    } else {
        let bs = sb.block_size;
        let xs = extent::node_idxs(node);
        let n = extent::header(node).eh_entries as int;
        let k = extent_insert::child_place(node, at, n);
        let e = (d - 1) as nat;
        let h = (hops - 1) as nat;
        lemma_place(node, at, n);
        lemma_key(node, k);
        if k + 1 < n {
            lemma_key(node, k + 1);
        }
        let x = xs[k];
        assert(x == extent::idx_at(node, extent::entry_offset(k)));
        let c = x.child();
        let end = tree::upper(xs, k, hi);
        lemma_as_list(st.disk, bs, node, d, lo, hi);
        assert(sound_child(st.disk, bs, xs[k], end, e));
        let child = block_device::block_at(st.disk, bs, c)->Ok_0;
        block_device::lemma_block_at(st.disk, bs, c);
        let low = extent_insert::lesser(x.ei_block, at) as int;
        lemma_lower_start(st.disk, bs, child, e, x.ei_block as int, end, low);
        assert(in_tree(st, sb, num, child, e, low, end)) by {
            assert forall|y: u64| #[trigger] tree::within(
                st.disk,
                bs,
                child,
                e,
                y,
            ) implies volume::kept_apart(st, sb, num, y) && volume::agrees(st, bs, y) by {
                assert(under(st.disk, bs, xs[k], e, y));
                assert(under_list(st.disk, bs, xs, e, y));
                assert(tree::within(st.disk, bs, node, d, y));
            }
        }
        lemma_put_in(st, sb, num, hint, child, c, e, low, end, h, at, phys, count);
        let (s1, r1) = extent_insert::put_in(st, sb, hint, child, c, e, at, phys, count);
        let p = r1->Ok_0;
        lemma_relisted(st, s1, sb, num, node, d, lo, hi, hops, at, phys, count, k, p);
        let s2 = extent_write::wrote(s1, sb, c, p.node).0;
        lemma_parent_put(
            st,
            s2,
            sb,
            num,
            hint,
            node,
            b,
            d,
            lo,
            hi,
            hops,
            at,
            phys,
            count,
            k,
            p,
        );
    }
}

/// Whether `s` is `st` with `count` blocks from `phys` on mapped at logical block `at`
/// of the file: it is sound, at depth `d2`, and nothing else of the inode or of what
/// was used changed.
pub open spec fn placed(
    st: FsState,
    s: FsState,
    sb: Superblock,
    num: u32,
    d: nat,
    d2: nat,
    at: int,
    phys: u64,
    count: int,
) -> bool {
    &&& volume::sound_file(s, sb, num, d2)
    &&& volume::later(st, s, sb)
    &&& volume::table_block(s.gdt, sb, num) == volume::table_block(st.gdt, sb, num)
    &&& volume::record_changed(st, s, sb, num)
    &&& gains(
        volume::extents_now(st, sb, num),
        volume::extents_now(s, sb, num),
        at,
        phys,
        count,
    )
    &&& volume::inode_now(s, sb, num) == (InodeView {
        block_data: volume::inode_now(s, sb, num).block_data,
        ..volume::inode_now(st, sb, num)
    })
    &&& forall|b: u64| #[trigger]
        append::bystander(st, sb, num, d, b) ==> volume::untouched(st, s, sb.block_size, b)
            && append::bystander(
            s,
            sb,
            num,
            d2,
            b,
        )
}

/// The record of an inode with another root, and more blocks.
proof fn lemma_record(rec: Seq<u8>, root: Seq<u8>, sb: Superblock, count: u16)
    requires
        rec.len() == 128,
        root.len() == 60,
    ensures
        ({
            let r1 = extent_write::with_root(rec, root);
            let r2 = extent_write::with_more_blocks(r1, sb, count);
            &&& r1.len() == 128
            &&& r2.len() == 128
            &&& bytes::le32(r1, 20) == bytes::le32(rec, 20)
            &&& bytes::le32(r2, 20) == bytes::le32(rec, 20)
            &&& inode::inode_of(r1) == (InodeView { block_data: root, ..inode::inode_of(rec) })
            &&& inode::inode_of(r2) == (InodeView { block_data: root, ..inode::inode_of(rec) })
            &&& extent_write::root_of(r1) == root
        }),
{
    broadcast use crate::bytes::group_codec;

    let r1 = extent_write::with_root(rec, root);
    let r2 = extent_write::with_more_blocks(r1, sb, count);
    assert(r1.subrange(40, 100) =~= root);
    assert(r2.subrange(40, 100) =~= root);
}

/// The last step: the record is written through.
#[verifier::rlimit(100)]
proof fn lemma_settled(
    st: FsState,
    s1: FsState,
    sb: Superblock,
    num: u32,
    d: nat,
    d2: nat,
    rec: Seq<u8>,
    at: int,
    phys: u64,
    count: int,
)
    requires
        volume::sound_file(st, sb, num, d),
        append::ready(st, sb, num, d, phys, count),
        count > 0,
        volume::later(st, s1, sb),
        volume::sound_volume(s1, sb),
        volume::sound_slot(s1, sb, num),
        volume::table_block(s1.gdt, sb, num) == volume::table_block(st.gdt, sb, num),
        volume::record_changed(st, s1, sb, num),
        rec.len() == 128,
        bytes::le32(rec, 20) == 0,
        inode::inode_of(rec) == (InodeView {
            block_data: inode::inode_of(rec).block_data,
            ..volume::inode_now(st, sb, num)
        }),
        extent_write::flushed(s1, sb, num, rec).1 is Ok,
        tree::sound(
            s1.disk,
            sb.block_size,
            inode::inode_of(rec).block_data,
            d2,
            0,
            tree::LOGICAL_END as int,
        ),
        gains(
            volume::extents_now(st, sb, num),
            leaves_of(
                s1,
                sb,
                inode::inode_of(rec).block_data,
                block_device::sectors(s1.disk) as nat,
            ),
            at,
            phys,
            count,
        ),
        forall|b: u64| #[trigger]
            tree::within(s1.disk, sb.block_size, inode::inode_of(rec).block_data, d2, b)
                ==> volume::agrees(s1, sb.block_size, b) && volume::kept_apart(s1, sb, num, b) && (
            volume::node_block(st, sb, num, d, b) || !volume::used(st, sb, b)),
        forall|b: u64| #[trigger]
            append::bystander(st, sb, num, d, b) ==> volume::untouched(st, s1, sb.block_size, b),
    ensures
        placed(st, extent_write::flushed(s1, sb, num, rec).0, sb, num, d, d2, at, phys, count),
{
    let bs = sb.block_size;
    let s = extent_write::flushed(s1, sb, num, rec).0;
    let t = volume::table_block(st.gdt, sb, num);
    let root = inode::inode_of(rec).block_data;
    let hops = block_device::sectors(s1.disk) as nat;
    let end = tree::LOGICAL_END as int;
    volume::lemma_flushed(s1, sb, num, rec);
    volume::lemma_volume_kept(st, s1, sb);
    assert(extent::header(root).eh_depth == d2);
    assert forall|b: u64| #[trigger]
        tree::within(s1.disk, bs, root, d2, b) implies block_device::block_at(s.disk, bs, b)
        == block_device::block_at(s1.disk, bs, b) by {}
    tree::law_depends_on_nodes(s1.disk, s.disk, bs, root, d2, 0, end, hops);
    assert(volume::inode_now(s, sb, num) == inode::inode_of(rec));
    let v = volume::extents_now(st, sb, num);
    let w = volume::extents_now(s, sb, num);
    assert(w == leaves_of(s1, sb, root, hops));
    append::lemma_later(st, s1, s, sb);
    assert forall|b: u64| #[trigger] volume::node_block(s, sb, num, d2, b) implies tree::within(
        s1.disk,
        bs,
        root,
        d2,
        b,
    ) && volume::kept_apart(s, sb, num, b) && volume::agrees(s, bs, b) by {
        assert(tree::within(s.disk, bs, root, d2, b));
        assert(tree::within(s1.disk, bs, root, d2, b));
        assert(volume::used(s, sb, b));
    }
    assert forall|b: u64| #[trigger] append::bystander(st, sb, num, d, b) implies volume::untouched(
        st,
        s,
        bs,
        b,
    ) && append::bystander(s, sb, num, d2, b) by {
        assert(volume::used(s1, sb, b));
        assert(volume::used(s, sb, b));
        assert(block_device::block_at(s.disk, bs, b) == block_device::block_at(s1.disk, bs, b));
    }
    assert forall|l: u64| (#[trigger] extent::mapped(w, l)) is Some implies volume::kept_apart(
        s,
        sb,
        num,
        extent::mapped(w, l)->Some_0,
    ) && !volume::node_block(s, sb, num, d2, extent::mapped(w, l)->Some_0) by {
        lemma_mapped_held(st, sb, num, d, v, w, at, phys, count, l);
        assert(append::bystander(st, sb, num, d, extent::mapped(w, l)->Some_0));
    }
    assert forall|l: u64, m: u64|
        (#[trigger] extent::mapped(w, l)) is Some && l != m implies extent::mapped(w, l)
        != #[trigger] extent::mapped(w, m) by {
        lemma_mapped_held(st, sb, num, d, v, w, at, phys, count, l);
        lemma_mapped_apart(st, sb, num, d, v, w, at, phys, count, l, m);
    }
}

proof fn lemma_mapped_held(
    st: FsState,
    sb: Superblock,
    num: u32,
    d: nat,
    v: Seq<ExtentLeaf>,
    w: Seq<ExtentLeaf>,
    at: int,
    phys: u64,
    count: int,
    l: u64,
)
    requires
        volume::sound_file(st, sb, num, d),
        v == volume::extents_now(st, sb, num),
        append::ready(st, sb, num, d, phys, count),
        gains(v, w, at, phys, count),
        extent::mapped(w, l) is Some,
    ensures
        append::bystander(st, sb, num, d, extent::mapped(w, l)->Some_0),
{
    let b = extent::mapped(w, l)->Some_0;
    if at <= l < at + count {
        assert(phys <= b < phys + count);
        assert(volume::kept_apart(st, sb, num, b));
    } else {
        assert(extent::mapped(v, l) is Some);
    }
}

proof fn lemma_mapped_apart(
    st: FsState,
    sb: Superblock,
    num: u32,
    d: nat,
    v: Seq<ExtentLeaf>,
    w: Seq<ExtentLeaf>,
    at: int,
    phys: u64,
    count: int,
    l: u64,
    m: u64,
)
    requires
        volume::sound_file(st, sb, num, d),
        v == volume::extents_now(st, sb, num),
        append::ready(st, sb, num, d, phys, count),
        gains(v, w, at, phys, count),
        extent::mapped(w, l) is Some,
        l != m,
    ensures
        extent::mapped(w, l) != extent::mapped(w, m),
{
    let x = extent::mapped(w, l);
    let y = extent::mapped(w, m);
    if at <= l < at + count {
        assert(volume::kept_apart(st, sb, num, x->Some_0));
        if !(at <= m < at + count) {
            assert(extent::mapped(v, m) != Some(x->Some_0));
        }
    } else {
        assert(extent::mapped(v, l) == x);
        if at <= m < at + count {
            assert(volume::kept_apart(st, sb, num, y->Some_0));
            assert(extent::mapped(v, l) != Some(y->Some_0));
        } else {
            assert(extent::mapped(v, m) == y);
        }
    }
}

/// A tree whose root moved down a level maps what it mapped.
#[verifier::rlimit(100)]
pub proof fn lemma_grown(st: FsState, sb: Superblock, num: u32, d: nat, rec: Seq<u8>)
    requires
        volume::sound_file(st, sb, num, d),
        extent_write::opened(st, sb, num) == Ok::<Seq<u8>, ExtentWriteError>(rec),
        d < extent::MAX_DEPTH,
        extent::header(extent_write::root_of(rec)).eh_entries > 0,
        extent_write::grown(st, sb, num, rec).1 is Ok,
    ensures
        ({
            let (s, r) = extent_write::grown(st, sb, num, rec);
            let rec2 = r->Ok_0;
            let root = extent_write::root_of(rec);
            let root2 = extent_write::root_of(rec2);
            let hops = block_device::sectors(st.disk) as nat;
            &&& rec2.len() == 128
            &&& bytes::le32(rec2, 20) == 0
            &&& inode::inode_of(rec2) == (InodeView {
                block_data: root2,
                ..volume::inode_now(st, sb, num)
            })
            &&& root2.len() == 60
            &&& in_tree(s, sb, num, root2, d + 1, 0, tree::LOGICAL_END as int)
            &&& extent::header(root2).eh_entries < extent::header(root2).eh_max
            &&& leaves_of(s, sb, root2, hops) == volume::extents_now(st, sb, num)
            &&& volume::later(st, s, sb)
            &&& volume::table_block(s.gdt, sb, num) == volume::table_block(st.gdt, sb, num)
            &&& volume::record_changed(st, s, sb, num)
            &&& forall|b: u64| #[trigger]
                append::bystander(st, sb, num, d, b) ==> volume::untouched(
                    st,
                    s,
                    sb.block_size,
                    b,
                )
            &&& forall|b: u64| #[trigger]
                tree::within(s.disk, sb.block_size, root2, d + 1, b) ==> volume::node_block(
                    st,
                    sb,
                    num,
                    d,
                    b,
                ) || !volume::used(st, sb, b)
        }),
{
    reveal(sound_child);
    let bs = sb.block_size;
    let end = tree::LOGICAL_END as int;
    let hops = block_device::sectors(st.disk) as nat;
    let root = extent_write::root_of(rec);
    let h = extent::header(root);
    let cap = extent_write::node_capacity(bs);
    volume::lemma_slot_read(st, sb, num);
    volume::lemma_extents(st, sb, num, d);
    append::lemma_same_root(rec);
    assert(h.eh_depth == d);
    let (s1, r1) = block_alloc::allocated(st, sb, 1, num as u64);
    let fresh = r1->Ok_0;
    lemma_fresh(st, sb, num, num as u64, root);
    let child = nodes::moved(root, bs, 0, cap, h.eh_depth);
    lemma_moved_down(root, d, bs);
    assert(child.len() == bs);
    lemma_written_fresh(st, s1, sb, num, fresh, root, child);
    let s2 = extent_write::wrote(s1, sb, fresh, child).0;
    let root2 = nodes::new_root((d + 1) as u16, fresh);
    nodes::lemma_new_root((d + 1) as u16, fresh);
    let rec2 = extent_write::with_root(rec, root2);
    lemma_record(rec, root2, sb, 0);
    volume::lemma_flushed(s2, sb, num, rec2);
    let s = extent_write::flushed(s2, sb, num, rec2).0;
    assert(extent_write::grown(st, sb, num, rec) == (s, Ok::<Seq<u8>, ExtentWriteError>(rec2)));
    append::lemma_later(st, s2, s, sb);
    volume::lemma_volume_kept(st, s, sb);
    let t = volume::table_block(st.gdt, sb, num);
    assert(volume::record_changed(st, s, sb, num)) by {
        assert(volume::untouched(st, s2, bs, t)) by {
            assert(block_device::block_at(s2.disk, bs, t) == block_device::block_at(
                s2.disk,
                bs,
                t,
            ));
            assert(!tree::within(st.disk, bs, root, 0, t));
        }
    }
    // The nodes under the old root are where they were.
    assert forall|b: u64| #[trigger]
        tree::within(st.disk, bs, root, d, b) implies block_device::block_at(s.disk, bs, b)
        == block_device::block_at(st.disk, bs, b) && volume::kept_apart(s, sb, num, b)
        && volume::agrees(s, bs, b) by {
        assert(volume::node_block(st, sb, num, d, b));
        assert(!tree::within(st.disk, bs, root, 0, b));
        assert(volume::untouched(st, s2, bs, b)) by {
            assert(block_device::block_at(s2.disk, bs, b) == block_device::block_at(
                s2.disk,
                bs,
                b,
            ));
        }
        assert(volume::agrees(s2, bs, b));
        assert(volume::used(s, sb, b));
    }
    tree::law_depends_on_nodes(st.disk, s.disk, bs, root, d, 0, end, (hops - 1) as nat);
    tree::law_depends_on_nodes(st.disk, s.disk, bs, root, d, 0, end, hops);
    lemma_same_node(s.disk, bs, root, child, d, 0, end, (hops - 1) as nat);
    lemma_same_node(st.disk, bs, root, child, d, 0, end, hops);
    lemma_same_hops(st.disk, bs, root, d, 0, end, hops, (hops - 1) as nat);
    let xs = extent::node_idxs(root2);
    assert(block_device::block_at(s.disk, bs, fresh) == Ok::<Seq<u8>, BlockDeviceError>(child));
    assert(sound_child(s.disk, bs, xs[0], end, d));
    assert(xs =~= seq![xs[0]]);
    assert(sound_list(s.disk, bs, xs, d, 0, end));
    lemma_as_list(s.disk, bs, root2, d + 1, 0, end);
    lemma_tree_list(s.disk, bs, root2, d + 1, 0, end, hops);
    assert(xs.drop_last() =~= Seq::<ExtentIdx>::empty());
    assert(list_leaves(s.disk, bs, xs, (hops - 1) as nat) =~= extent::tree_leaves(
        s.disk,
        bs,
        child,
        (hops - 1) as nat,
    )->Ok_0) by {
        reveal_with_fuel(list_leaves, 2);
    }
    assert forall|b: u64| #[trigger] tree::within(s.disk, bs, root2, d + 1, b) implies (
    volume::node_block(st, sb, num, d, b) || !volume::used(st, sb, b)) && volume::kept_apart(
        s,
        sb,
        num,
        b,
    ) && volume::agrees(s, bs, b) by {
        let j = choose|j: int| 0 <= j < xs.len() && under(s.disk, bs, #[trigger] xs[j], d, b);
        if b != fresh {
            assert(tree::within(s.disk, bs, child, d, b));
            assert(tree::within(s.disk, bs, root, d, b));
            assert(tree::within(st.disk, bs, root, d, b));
        } else {
            assert(volume::used(s, sb, fresh));
        }
    }
    assert forall|b: u64| #[trigger] append::bystander(st, sb, num, d, b) implies volume::untouched(
        st,
        s,
        bs,
        b,
    ) by {
        assert(!tree::within(st.disk, bs, root, 0, b));
        assert(volume::untouched(st, s2, bs, b)) by {
            assert(block_device::block_at(s2.disk, bs, b) == block_device::block_at(
                s2.disk,
                bs,
                b,
            ));
        }
        assert(b != t);
        assert(block_device::block_at(s.disk, bs, b) == block_device::block_at(s2.disk, bs, b));
    }
}

/// A root's entries in a block of their own.
proof fn lemma_moved_down(root: Seq<u8>, d: nat, bs: u32)
    requires
        tree::sound_node(root, d),
        root.len() == 60,
        bs >= 1024,
        bs <= 65536,
    ensures
        ({
            let child = nodes::moved(
                root,
                bs,
                0,
                extent_write::node_capacity(bs),
                extent::header(root).eh_depth,
            );
            &&& tree::sound_node(child, d)
            &&& child.len() == bs
            &&& extent::header(child).eh_entries == extent::header(root).eh_entries
            &&& extent::header(child).eh_max >= 2
            &&& extent::node_leaves(child) == extent::node_leaves(root)
            &&& extent::node_idxs(child) == extent::node_idxs(root)
        }),
{
    let h = extent::header(root);
    let n = h.eh_entries as int;
    let cap = extent_write::node_capacity(bs);
    let child = nodes::moved(root, bs, 0, cap, h.eh_depth);
    let zero = bytes::zeros(bs as int);
    extent_write::lemma_header(zero, n, cap, h.eh_depth);
    let part = root.subrange(extent::entry_offset(0), extent::entry_offset(n));
    let base = extent_write::with_header(zero, n, cap, h.eh_depth);
    assert(extent::header(child) == extent::header(base)) by {
        broadcast use crate::bytes::group_codec;

    }
    assert forall|j: int| 0 <= j < n implies extent::node_leaves(child)[j] == extent::node_leaves(
        root,
    )[j] && extent::node_idxs(child)[j] == extent::node_idxs(root)[j] by {
        let a = extent::entry_offset(j);
        assert forall|t: int| 0 <= t < 12 implies #[trigger] child[a + t] == root[a + t] by {
            assert(child[a + t] == part[a + t - 12]);
        }
        nodes::lemma_same_entry(child, a, root, a);
    }
    assert(extent::node_leaves(child) =~= extent::node_leaves(root));
    assert(extent::node_idxs(child) =~= extent::node_idxs(root));
}

/// A node with the same entries is sound where the other is, and lists the same.
proof fn lemma_same_node(
    disk: Seq<u8>,
    bs: u32,
    a: Seq<u8>,
    b: Seq<u8>,
    d: nat,
    lo: int,
    hi: int,
    hops: nat,
)
    requires
        tree::sound(disk, bs, a, d, lo, hi),
        tree::sound_node(b, d),
        lo <= hi,
        d <= hops,
        extent::header(b).eh_entries == extent::header(a).eh_entries,
        extent::node_leaves(b) == extent::node_leaves(a),
        extent::node_idxs(b) == extent::node_idxs(a),
    ensures
        tree::sound(disk, bs, b, d, lo, hi),
        extent::tree_leaves(disk, bs, b, hops) == extent::tree_leaves(disk, bs, a, hops),
        forall|x: u64| #[trigger]
            tree::within(disk, bs, b, d, x) == tree::within(disk, bs, a, d, x),
{
    if d > 0 {
        lemma_as_list(disk, bs, a, d, lo, hi);
        lemma_as_list(disk, bs, b, d, lo, hi);
        lemma_tree_list(disk, bs, a, d, lo, hi, hops);
        lemma_tree_list(disk, bs, b, d, lo, hi, hops);
        assert forall|x: u64| #[trigger] tree::within(disk, bs, b, d, x) == tree::within(
            disk,
            bs,
            a,
            d,
            x,
        ) by {
            assert(tree::within(disk, bs, a, d, x) == under_list(
                disk,
                bs,
                extent::node_idxs(a),
                (d - 1) as nat,
                x,
            ));
        }
    }
}

/// How many hops are allowed makes no difference, if they are enough.
proof fn lemma_same_hops(
    disk: Seq<u8>,
    bs: u32,
    node: Seq<u8>,
    d: nat,
    lo: int,
    hi: int,
    h1: nat,
    h2: nat,
)
    requires
        tree::sound(disk, bs, node, d, lo, hi),
        lo <= hi,
        d <= h1,
        d <= h2,
    ensures
        extent::tree_leaves(disk, bs, node, h1) == extent::tree_leaves(disk, bs, node, h2),
    decreases d, 70000int,
{
    if d > 0 {
        lemma_tree_list(disk, bs, node, d, lo, hi, h1);
        lemma_tree_list(disk, bs, node, d, lo, hi, h2);
        lemma_as_list(disk, bs, node, d, lo, hi);
        let xs = extent::node_idxs(node);
        lemma_same_hops_list(
            disk,
            bs,
            xs,
            (d - 1) as nat,
            lo,
            hi,
            (h1 - 1) as nat,
            (h2 - 1) as nat,
            xs.len() as int,
        );
        assert(xs.take(xs.len() as int) =~= xs);
    }
}

proof fn lemma_same_hops_list(
    disk: Seq<u8>,
    bs: u32,
    xs: Seq<ExtentIdx>,
    d: nat,
    lo: int,
    hi: int,
    h1: nat,
    h2: nat,
    k: int,
)
    requires
        sound_list(disk, bs, xs, d, lo, hi),
        d <= h1,
        d <= h2,
        0 <= k <= xs.len(),
        xs.len() < 70000,
    ensures
        list_leaves(disk, bs, xs.take(k), h1) == list_leaves(disk, bs, xs.take(k), h2),
    decreases d + 1, k,
{
    reveal(sound_child);
    if k > 0 {
        lemma_same_hops_list(disk, bs, xs, d, lo, hi, h1, h2, k - 1);
        assert(xs.take(k).drop_last() =~= xs.take(k - 1));
        assert(xs.take(k).last() == xs[k - 1]);
        assert(sound_child(disk, bs, xs[k - 1], tree::upper(xs, k - 1, hi), d));
        lemma_same_hops(
            disk,
            bs,
            block_device::block_at(disk, bs, xs[k - 1].child())->Ok_0,
            d,
            xs[k - 1].ei_block as int,
            tree::upper(xs, k - 1, hi),
            h1,
            h2,
        );
    }
}

/// Mapping blocks in a file whose root has room.
#[verifier::rlimit(100)]
proof fn lemma_root_put(
    st: FsState,
    s1: FsState,
    sb: Superblock,
    num: u32,
    d: nat,
    d1: nat,
    rec: Seq<u8>,
    at: u32,
    phys: u64,
    count: u16,
    taken: int,
)
    requires
        volume::sound_file(st, sb, num, d),
        append::ready(st, sb, num, d, phys, count as int),
        0 < count <= MAX_INIT_LEN,
        at + count <= tree::LOGICAL_END,
        rec.len() == 128,
        bytes::le32(rec, 20) == 0,
        inode::inode_of(rec) == (InodeView {
            block_data: extent_write::root_of(rec),
            ..volume::inode_now(st, sb, num)
        }),
        extent_write::root_of(rec).len() == 60,
        d1 <= extent::MAX_DEPTH,
        in_tree(s1, sb, num, extent_write::root_of(rec), d1, 0, tree::LOGICAL_END as int),
        ({
            let root = extent_write::root_of(rec);
            let h = extent::header(root);
            h.eh_entries < h.eh_max || d1 == 0 && extent_insert::joins(
                root,
                extent_insert::place(root, at, h.eh_entries as int),
                at,
                phys,
                count,
            )
        }),
        leaves_of(
            s1,
            sb,
            extent_write::root_of(rec),
            block_device::sectors(st.disk) as nat,
        ) == volume::extents_now(st, sb, num),
        volume::later(st, s1, sb),
        volume::table_block(s1.gdt, sb, num) == volume::table_block(st.gdt, sb, num),
        volume::record_changed(st, s1, sb, num),
        forall|b: u64| #[trigger]
            append::bystander(st, sb, num, d, b) ==> volume::untouched(st, s1, sb.block_size, b),
        forall|b: u64| #[trigger]
            tree::within(s1.disk, sb.block_size, extent_write::root_of(rec), d1, b)
                ==> volume::node_block(st, sb, num, d, b) || !volume::used(st, sb, b),
        extent_insert::root_put(s1, sb, num, rec, at, phys, count, taken).1 is Ok,
    ensures
        placed(
            st,
            extent_insert::root_put(s1, sb, num, rec, at, phys, count, taken).0,
            sb,
            num,
            d,
            d1,
            at as int,
            phys,
            count as int,
        ),
{
    reveal(well_put);
    let bs = sb.block_size;
    let end = tree::LOGICAL_END as int;
    let hops = block_device::sectors(st.disk) as nat;
    let root = extent_write::root_of(rec);
    let t = volume::table_block(st.gdt, sb, num);
    assert(extent::header(root).eh_depth == d1);
    lemma_put_in(s1, sb, num, num as u64, root, 0, d1, 0, end, hops, at, phys, count);
    let (s2, r2) = extent_insert::put_in(
        s1,
        sb,
        num as u64,
        root,
        0,
        d1,
        at,
        phys,
        count,
    );
    let p = r2->Ok_0;
    let more = (count + taken + p.taken) as u16;
    lemma_record(rec, p.node, sb, more);
    let rec2 = extent_write::with_more_blocks(extent_write::with_root(rec, p.node), sb, more);
    append::lemma_later(st, s1, s2, sb);
    volume::lemma_volume_kept(st, s1, sb);
    assert(!tree::within(s1.disk, bs, root, d1, t)) by {
        if tree::within(s1.disk, bs, root, d1, t) {
            assert(volume::kept_apart(s1, sb, num, t));
        }
    }
    assert(volume::untouched(s1, s2, bs, t)) by {
        assert(block_device::block_at(s2.disk, bs, t) == block_device::block_at(s2.disk, bs, t));
    }
    assert forall|b: u64| #[trigger] append::bystander(st, sb, num, d, b) implies volume::untouched(
        st,
        s2,
        bs,
        b,
    ) by {
        assert(volume::used(s1, sb, b));
        assert(!tree::within(s1.disk, bs, root, d1, b));
        assert(block_device::block_at(s2.disk, bs, b) == block_device::block_at(s2.disk, bs, b));
        assert(volume::untouched(s1, s2, bs, b));
    }
    assert forall|b: u64| #[trigger] tree::within(s2.disk, bs, p.node, d1, b) implies volume::agrees(
        s2,
        bs,
        b,
    ) && volume::kept_apart(s2, sb, num, b) && (volume::node_block(st, sb, num, d, b)
        || !volume::used(st, sb, b)) by {
        if volume::used(st, sb, b) {
            assert(volume::used(s1, sb, b));
            assert(tree::within(s1.disk, bs, root, d1, b));
        }
    }
    assert(block_device::sectors(s2.disk) == block_device::sectors(st.disk));
    lemma_settled(st, s2, sb, num, d, d1, rec2, at as int, phys, count as int);
}

/// Mapping blocks in a sound file keeps it sound, maps them where they are to be, and
/// leaves everything else alone. Gives the depth of its tree.
#[verifier::rlimit(100)]
pub proof fn law_inserted(
    st: FsState,
    sb: Superblock,
    num: u32,
    d: nat,
    at: int,
    phys: u64,
    count: u16,
) -> (d2: nat)
    requires
        volume::sound_file(st, sb, num, d),
        append::ready(st, sb, num, d, phys, count as int),
        0 < count <= MAX_INIT_LEN,
        0 <= at,
        extent_insert::inserted(st, sb, num, at, phys, count).1 is Ok,
    ensures
        d <= d2 <= d + 1,
        placed(
            st,
            extent_insert::inserted(st, sb, num, at, phys, count).0,
            sb,
            num,
            d,
            d2,
            at,
            phys,
            count as int,
        ),
{
    let bs = sb.block_size;
    let end = tree::LOGICAL_END as int;
    volume::lemma_slot_read(st, sb, num);
    volume::lemma_extents(st, sb, num, d);
    let rec = extent_write::opened(st, sb, num)->Ok_0;
    append::lemma_same_root(rec);
    let root = extent_write::root_of(rec);
    let h = extent::header(root);
    assert(h.eh_depth == d);
    let (s1, r1) = extent_insert::roomy(st, sb, num, rec, at as u32, phys, count);
    let (rec1, taken) = r1->Ok_0;
    assert(in_tree(st, sb, num, root, d, 0, end)) by {
        assert forall|b: u64| #[trigger] tree::within(
            st.disk,
            bs,
            root,
            d,
            b,
        ) implies volume::kept_apart(st, sb, num, b) && volume::agrees(st, bs, b) by {
            assert(volume::node_block(st, sb, num, d, b));
        }
    }
    if rec1 == rec && s1 == st && (h.eh_entries < h.eh_max || h.eh_depth == 0
        && extent_insert::joins(
        root,
        extent_insert::place(root, at as u32, h.eh_entries as int),
        at as u32,
        phys,
        count,
    )) {
        assert forall|b: u64| #[trigger] tree::within(
            st.disk,
            bs,
            root,
            d,
            b,
        ) implies volume::node_block(st, sb, num, d, b) by {}
        lemma_root_put(st, st, sb, num, d, d, rec, at as u32, phys, count, taken);
        d
    } else {
        lemma_grown(st, sb, num, d, rec);
        lemma_root_put(st, s1, sb, num, d, d + 1, rec1, at as u32, phys, count, taken);
        d + 1
    }
}

} // verus!
