//! What changing the bytes of a tree node does to its entries.
use vstd::prelude::*;
use super::tree;
use crate::bytes;
use crate::extent;
use crate::extent::{ExtentIdx, ExtentLeaf, MAX_INIT_LEN};
use crate::extent_write;
use crate::extent_write::ROOT_MAX_ENTRIES;

verus! {

broadcast use crate::bytes::group_codec;

/// Whether `w` maps what `v` maps and, behind its end, the `count` blocks from
/// `phys` on.
pub open spec fn extends(v: Seq<ExtentLeaf>, w: Seq<ExtentLeaf>, phys: u64, count: int) -> bool {
    &&& tree::end_of(w) == tree::end_of(v) + count
    &&& forall|l: u64| #[trigger]
        extent::mapped(w, l) == (if tree::end_of(v) <= l < tree::end_of(v) + count {
            Some((phys + (l - tree::end_of(v))) as u64)
        } else {
            extent::mapped(v, l)
        })
}

/// Entries with the same bytes are the same.
pub proof fn lemma_same_entry(a: Seq<u8>, i: int, b: Seq<u8>, j: int)
    requires
        0 <= i,
        0 <= j,
        i + 12 <= a.len(),
        j + 12 <= b.len(),
        forall|t: int| 0 <= t < 12 ==> #[trigger] a[i + t] == b[j + t],
    ensures
        extent::leaf_at(a, i) == extent::leaf_at(b, j),
        extent::idx_at(a, i) == extent::idx_at(b, j),
{
    reveal(bytes::le16);
    reveal(bytes::le32);
    assert(a[i + 0] == b[j + 0]);
    assert(a[i + 1] == b[j + 1]);
    assert(a[i + 2] == b[j + 2]);
    assert(a[i + 3] == b[j + 3]);
    assert(a[i + 4] == b[j + 4]);
    assert(a[i + 5] == b[j + 5]);
    assert(a[i + 6] == b[j + 6]);
    assert(a[i + 7] == b[j + 7]);
    assert(a[i + 8] == b[j + 8]);
    assert(a[i + 9] == b[j + 9]);
    assert(a[i + 10] == b[j + 10]);
    assert(a[i + 11] == b[j + 11]);
}

/// The last extent of `v` made longer by `count` blocks.
pub open spec fn longer(v: Seq<ExtentLeaf>, count: u16) -> Seq<ExtentLeaf> {
    v.update(
        v.len() - 1,
        ExtentLeaf { ee_len: (v.last().ee_len + count) as u16, ..v.last() },
    )
}

/// An extent that was made longer in place.
pub proof fn lemma_coalesced(node: Seq<u8>, phys: u64, count: u16)
    requires
        tree::sound_node(node, 0),
        extent_write::coalesced(node, phys, count) is Some,
    ensures
        ({
            let node2 = extent_write::coalesced(node, phys, count)->Some_0;
            &&& tree::sound_node(node2, 0)
            &&& node2.len() == node.len()
            &&& extent::header(node2) == extent::header(node)
            &&& extent::node_leaves(node2) == longer(extent::node_leaves(node), count)
        }),
{
    let node2 = extent_write::coalesced(node, phys, count)->Some_0;
    let n = extent::header(node).eh_entries as int;
    let v = extent::node_leaves(node);
    let w = extent::node_leaves(node2);
    assert forall|i: int| 0 <= i < n implies w[i] == longer(v, count)[i] by {
        if i < n - 1 {
            lemma_same_entry(
                node2,
                extent::entry_offset(i),
                node,
                extent::entry_offset(i),
            );
        }
    }
    assert(w =~= longer(v, count));
}

/// An entry that was added to a leaf node.
pub proof fn lemma_with_leaf(node: Seq<u8>, block: u32, len: u16, phys: u64) -> (leaf: ExtentLeaf)
    requires
        tree::sound_node(node, 0),
        extent::header(node).eh_entries < extent::header(node).eh_max,
        phys < 0x1_0000_0000_0000,
    ensures
        ({
            let node2 = extent_write::with_leaf(
                node,
                extent::header(node),
                extent_write::leaf_bytes(block, len, phys),
            );
            &&& tree::sound_node(node2, 0)
            &&& node2.len() == node.len()
            &&& extent::header(node2).eh_entries == extent::header(node).eh_entries + 1
            &&& extent::header(node2).eh_max == extent::header(node).eh_max
            &&& extent::node_leaves(node2) == extent::node_leaves(node).push(leaf)
            &&& leaf.ee_block == block
            &&& leaf.ee_len == len
            &&& leaf.phys() == phys
        }),
{
    let h = extent::header(node);
    let n = h.eh_entries as int;
    let e = extent_write::leaf_bytes(block, len, phys);
    let mid = extent_write::with_entry(node, n, e);
    let node2 = extent_write::with_leaf(node, h, e);
    extent_write::lemma_header(mid, n + 1, h.eh_max, 0);
    extent_write::lemma_leaf(node, n, block, len, phys);
    assert(phys as int % 0x1_0000_0000_0000 == phys);
    let leaf = extent::leaf_at(mid, extent::entry_offset(n));
    let v = extent::node_leaves(node);
    let w = extent::node_leaves(node2);
    assert forall|i: int| 0 <= i < n + 1 implies w[i] == v.push(leaf)[i] by {
        if i < n {
            lemma_same_entry(node2, extent::entry_offset(i), node, extent::entry_offset(i));
        } else {
            lemma_same_entry(node2, extent::entry_offset(i), mid, extent::entry_offset(i));
        }
    }
    assert(w =~= v.push(leaf));
    leaf
}

/// The lower half of a leaf node that is split.
pub proof fn lemma_lower(node: Seq<u8>, keep: int)
    requires
        tree::sound_node(node, 0),
        0 <= keep <= extent::header(node).eh_entries,
    ensures
        ({
            let h = extent::header(node);
            let node2 = extent_write::with_header(node, keep, h.eh_max, 0);
            &&& tree::sound_node(node2, 0)
            &&& node2.len() == node.len()
            &&& extent::header(node2).eh_entries == keep
            &&& extent::header(node2).eh_max == h.eh_max
            &&& extent::node_leaves(node2) == extent::node_leaves(node).take(keep)
        }),
{
    let h = extent::header(node);
    let node2 = extent_write::with_header(node, keep, h.eh_max, 0);
    extent_write::lemma_header(node, keep, h.eh_max, 0);
    let v = extent::node_leaves(node);
    let w = extent::node_leaves(node2);
    assert forall|i: int| 0 <= i < keep implies w[i] == v.take(keep)[i] by {
        lemma_same_entry(node2, extent::entry_offset(i), node, extent::entry_offset(i));
    }
    assert(w =~= v.take(keep));
}

/// Entries that were moved to a new block.
pub open spec fn moved(node: Seq<u8>, bs: u32, keep: int, max: u16, depth: u16) -> Seq<u8> {
    let n = extent::header(node).eh_entries as int;
    bytes::put(
        extent_write::with_header(bytes::zeros(bs as int), n - keep, max, depth),
        12,
        node.subrange(extent::entry_offset(keep), extent::entry_offset(n)),
    )
}

/// The entries from number `keep` on, moved to a leaf node of their own.
pub proof fn lemma_moved(node: Seq<u8>, bs: u32, keep: int, max: u16)
    requires
        extent::node_fault(node) is None,
        extent::header(node).eh_depth == 0,
        0 <= keep <= extent::header(node).eh_entries,
        extent::header(node).eh_entries - keep <= max,
        extent::entry_offset(max as int) <= bs,
    ensures
        ({
            let n = extent::header(node).eh_entries as int;
            let node2 = moved(node, bs, keep, max, 0);
            &&& tree::sound_node(node2, 0)
            &&& node2.len() == bs
            &&& extent::header(node2).eh_entries == n - keep
            &&& extent::header(node2).eh_max == max
            &&& extent::node_leaves(node2) == extent::node_leaves(node).skip(keep)
            &&& keep < n ==> bytes::le32(node2, 12) == extent::node_leaves(node)[keep].ee_block
        }),
{
    let n = extent::header(node).eh_entries as int;
    let d = node.subrange(extent::entry_offset(keep), extent::entry_offset(n));
    let base = extent_write::with_header(bytes::zeros(bs as int), n - keep, max, 0);
    let node2 = moved(node, bs, keep, max, 0);
    extent_write::lemma_header(bytes::zeros(bs as int), n - keep, max, 0);
    let v = extent::node_leaves(node);
    let w = extent::node_leaves(node2);
    assert(extent::header(node2) == extent::header(base));
    assert forall|i: int| 0 <= i < n - keep implies w[i] == v.skip(keep)[i] by {
        let a = extent::entry_offset(i);
        let b = extent::entry_offset(keep + i);
        assert forall|t: int| 0 <= t < 12 implies #[trigger] node2[a + t] == node[b + t] by {
            assert(node2[a + t] == d[a + t - 12]);
        }
        lemma_same_entry(node2, a, node, b);
    }
    assert(w =~= v.skip(keep));
    if keep < n {
        assert(w[0].ee_block == bytes::le32(node2, 12));
        assert(v.skip(keep)[0] == v[keep]);
    }
}

/// An index entry that was written is read back.
pub proof fn lemma_idx(node: Seq<u8>, i: int, block: u32, child: u64)
    requires
        0 <= i,
        extent::entry_offset(i + 1) <= node.len(),
        child < 0x1_0000_0000_0000,
    ensures
        ({
            let x = extent::idx_at(
                extent_write::with_entry(node, i, extent_write::idx_bytes(block, child)),
                extent::entry_offset(i),
            );
            x.ei_block == block && x.child() == child
        }),
{
    let d = extent_write::idx_bytes(block, child);
    let at = extent::entry_offset(i);
    bytes::lemma_le32_inside(node, at, d, at);
    bytes::lemma_le32_inside(node, at, d, at + 4);
    bytes::lemma_le16_inside(node, at, d, at + 8);
}

/// The root that a tree gets when it grows by a level.
pub open spec fn new_root(depth: u16, child: u64) -> Seq<u8> {
    bytes::put(
        extent_write::with_header(bytes::zeros(60), 1, ROOT_MAX_ENTRIES, depth),
        12,
        extent_write::idx_bytes(0, child),
    )
}

/// A new root is sound, and leads to its one child.
pub proof fn lemma_new_root(depth: u16, child: u64)
    requires
        depth <= extent::MAX_DEPTH,
        child < 0x1_0000_0000_0000,
    ensures
        tree::sound_node(new_root(depth, child), depth as nat),
        new_root(depth, child).len() == 60,
        extent::header(new_root(depth, child)).eh_entries == 1,
        extent::header(new_root(depth, child)).eh_max == ROOT_MAX_ENTRIES,
        extent::node_idxs(new_root(depth, child))[0].ei_block == 0,
        extent::node_idxs(new_root(depth, child))[0].child() == child,
        extent::idx_at(new_root(depth, child), 12).child() == child,
{
    let base = extent_write::with_header(bytes::zeros(60), 1, ROOT_MAX_ENTRIES, depth);
    extent_write::lemma_header(bytes::zeros(60), 1, ROOT_MAX_ENTRIES, depth);
    lemma_idx(base, 0, 0, child);
    assert(new_root(depth, child) == extent_write::with_entry(
        base,
        0,
        extent_write::idx_bytes(0, child),
    ));
    assert(extent::header(new_root(depth, child)) == extent::header(base));
}

/// A root that got one more child.
pub proof fn lemma_with_child(root: Seq<u8>, d: nat, first: u32, child: u64) -> (idx: ExtentIdx)
    requires
        tree::sound_node(root, d),
        extent_write::with_child(root, first, child) is Ok,
        child < 0x1_0000_0000_0000,
    ensures
        ({
            let root2 = extent_write::with_child(root, first, child)->Ok_0;
            &&& tree::sound_node(root2, d)
            &&& root2.len() == root.len()
            &&& extent::header(root2).eh_entries == extent::header(root).eh_entries + 1
            &&& extent::node_idxs(root2) == extent::node_idxs(root).push(idx)
            &&& idx.ei_block == first
            &&& idx.child() == child
        }),
{
    let h = extent::header(root);
    let n = h.eh_entries as int;
    let root2 = extent_write::with_child(root, first, child)->Ok_0;
    let mid = extent_write::with_entry(root, n, extent_write::idx_bytes(first, child));
    extent_write::lemma_header(mid, n + 1, h.eh_max, h.eh_depth);
    lemma_idx(root, n, first, child);
    let idx = extent::idx_at(mid, extent::entry_offset(n));
    let v = extent::node_idxs(root);
    let w = extent::node_idxs(root2);
    assert forall|i: int| 0 <= i < n + 1 implies w[i] == v.push(idx)[i] by {
        if i < n {
            lemma_same_entry(root2, extent::entry_offset(i), root, extent::entry_offset(i));
        } else {
            lemma_same_entry(root2, extent::entry_offset(i), mid, extent::entry_offset(i));
        }
    }
    assert(w =~= v.push(idx));
    idx
}

/// An extent at the end extends what is mapped.
pub proof fn lemma_pushed(v: Seq<ExtentLeaf>, lo: int, hi: int, leaf: ExtentLeaf)
    requires
        tree::in_range(v, lo, hi),
        v.len() > 0 || lo == 0,
        leaf.ee_block == tree::end_of(v),
        0 < leaf.ee_len <= MAX_INIT_LEN,
        leaf.ee_block + leaf.ee_len <= hi,
    ensures
        tree::in_range(v.push(leaf), lo, hi),
        extends(v, v.push(leaf), leaf.phys(), leaf.ee_len as int),
{
    let w = v.push(leaf);
    let n = v.len() as int;
    assert forall|i: int| #![trigger w[i]] 0 <= i < w.len() implies lo <= w[i].ee_block
        && w[i].blocks() > 0 && w[i].ee_block + w[i].blocks() <= hi by {
        if i < n {
            assert(w[i] == v[i]);
        } else if n > 0 {
            assert(v[n - 1].ee_block >= lo);
        }
    }
    assert forall|i: int, j: int| #![trigger w[i], w[j]] 0 <= i < j < w.len() implies w[i].ee_block
        + w[i].blocks() <= w[j].ee_block by {
        assert(w[i] == v[i]);
        if j < n {
            assert(w[j] == v[j]);
        } else if i < n - 1 {
            assert(v[i].ee_block + v[i].blocks() <= v[n - 1].ee_block);
        }
    }
    assert(w.drop_last() =~= v);
    assert forall|l: u64| #[trigger]
        extent::mapped(w, l) == (if tree::end_of(v) <= l < tree::end_of(v) + leaf.ee_len {
            Some((leaf.phys() + (l - tree::end_of(v))) as u64)
        } else {
            extent::mapped(v, l)
        }) by {
        if tree::end_of(v) <= l {
            lemma_past_end(v, lo, hi, l);
        }
    }
}

/// Nothing is mapped behind the end.
pub proof fn lemma_past_end(v: Seq<ExtentLeaf>, lo: int, hi: int, l: u64)
    requires
        tree::in_range(v, lo, hi),
        tree::end_of(v) <= l,
    ensures
        extent::mapped(v, l) is None,
{
    let n = v.len() as int;
    assert forall|i: int| 0 <= i < n implies !(#[trigger] v[i]).covers(l) by {
        if i < n - 1 {
            assert(v[i].ee_block + v[i].blocks() <= v[n - 1].ee_block);
        }
    }
    tree::lemma_mapped_none(v, l);
}

/// A last extent that is longer extends what is mapped.
pub proof fn lemma_longer(v: Seq<ExtentLeaf>, lo: int, hi: int, phys: u64, count: u16)
    requires
        tree::in_range(v, lo, hi),
        v.len() > 0,
        !v.last().uninit(),
        v.last().phys() + v.last().ee_len == phys,
        v.last().ee_len + count <= MAX_INIT_LEN,
        tree::end_of(v) + count <= hi,
    ensures
        tree::in_range(longer(v, count), lo, hi),
        extends(v, longer(v, count), phys, count as int),
        longer(v, count)[0].ee_block == v[0].ee_block,
{
    let w = longer(v, count);
    let n = v.len() as int;
    assert forall|i: int| #![trigger w[i]] 0 <= i < w.len() implies lo <= w[i].ee_block
        && w[i].blocks() > 0 && w[i].ee_block + w[i].blocks() <= hi by {
        assert(v[i].blocks() > 0);
    }
    assert forall|i: int, j: int| #![trigger w[i], w[j]] 0 <= i < j < w.len() implies w[i].ee_block
        + w[i].blocks() <= w[j].ee_block by {
        assert(v[i].ee_block + v[i].blocks() <= v[j].ee_block);
    }
    assert(w.drop_last() =~= v.drop_last());
    assert forall|l: u64| #[trigger]
        extent::mapped(w, l) == (if tree::end_of(v) <= l < tree::end_of(v) + count {
            Some((phys + (l - tree::end_of(v))) as u64)
        } else {
            extent::mapped(v, l)
        }) by {
        if tree::end_of(v) <= l {
            lemma_past_end(v, lo, hi, l);
        }
    }
}

/// What extends the end of a list extends the list.
pub proof fn lemma_extends_behind(
    pre: Seq<ExtentLeaf>,
    v: Seq<ExtentLeaf>,
    w: Seq<ExtentLeaf>,
    hi: int,
    phys: u64,
    count: int,
)
    requires
        extends(v, w, phys, count),
        v.len() > 0,
        w.len() > 0,
        tree::in_range(pre, 0, v[0].ee_block as int),
        tree::in_range(v, 0, hi),
    ensures
        extends(pre + v, pre + w, phys, count),
{
    assert((pre + v).last() == v.last());
    assert((pre + w).last() == w.last());
    assert forall|l: u64| #[trigger]
        extent::mapped(pre + w, l) == (if tree::end_of(pre + v) <= l < tree::end_of(pre + v)
            + count {
            Some((phys + (l - tree::end_of(pre + v))) as u64)
        } else {
            extent::mapped(pre + v, l)
        }) by {
        tree::lemma_mapped_joined(pre, v, l);
        tree::lemma_mapped_joined(pre, w, l);
        assert(extent::mapped(w, l) == (if tree::end_of(v) <= l < tree::end_of(v) + count {
            Some((phys + (l - tree::end_of(v))) as u64)
        } else {
            extent::mapped(v, l)
        }));
        if tree::end_of(v) <= l {
            assert(v[0].ee_block <= tree::end_of(v)) by {
                if v.len() > 1 {
                    assert(v[0].ee_block + v[0].blocks() <= v[v.len() - 1].ee_block);
                }
            }
            assert forall|i: int| 0 <= i < pre.len() implies !(#[trigger] pre[i]).covers(l) by {}
            tree::lemma_mapped_none(pre, l);
        }
    }
}

} // verus!
