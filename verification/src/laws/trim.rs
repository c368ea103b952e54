//! What cutting a file short keeps, and what it gives back.
use vstd::prelude::*;
use super::append;
use super::pins;
use super::tree;
use super::volume;
use crate::allocator::bits;
use crate::allocator::block_alloc;
use crate::allocator::block_bitmap;
use crate::block_device;
use crate::block_device::BlockDeviceError;
use crate::bytes;
use crate::extent;
use crate::extent::{ExtentError, ExtentIdx, ExtentLeaf, MAX_INIT_LEN};
use crate::extent_write;
use crate::extent_write::ExtentWriteError;
use crate::file;
use crate::fs_state;
use crate::fs_state::FsState;
use crate::inode;
use crate::inode::InodeView;
use crate::journal::writer;
use crate::superblock::Superblock;

verus! {

/// Whether `w` maps what `v` maps, up to logical block `keep`.
pub open spec fn trimmed(v: Seq<ExtentLeaf>, w: Seq<ExtentLeaf>, keep: u32) -> bool {
    forall|l: u64| #[trigger]
        extent::mapped(w, l) == (if l < keep {
            extent::mapped(v, l)
        } else {
            None
        })
}

/// Whether the blocks that `v` maps from logical block `keep` on are free.
pub open spec fn given_back(s: FsState, sb: Superblock, v: Seq<ExtentLeaf>, keep: u32) -> bool {
    forall|l: u64|
        l >= keep && (#[trigger] extent::mapped(v, l)) is Some ==> !volume::used(
            s,
            sb,
            extent::mapped(v, l)->Some_0,
        )
}

/// Whether a volume can be read at all, and its descriptors lie apart from its bitmaps.
pub open spec fn readable(st: FsState, sb: Superblock) -> bool {
    sb.wf() && st.disk.len() % 512 == 0 && crate::allocator::laws::table_apart(st.gdt, sb)
}

/// Whether the groups lie where they lay, and nothing is used that was not.
pub open spec fn emptier(st: FsState, s: FsState, sb: Superblock) -> bool {
    &&& volume::same_layout(st.gdt, s.gdt)
    &&& s.disk.len() == st.disk.len()
    &&& forall|b: u64| #[trigger] volume::used(s, sb, b) ==> volume::used(st, sb, b)
}

/// Whether `s` is `st` with blocks given back: nothing but the groups' blocks
/// changed.
pub open spec fn gave_back(st: FsState, s: FsState, sb: Superblock) -> bool {
    &&& emptier(st, s, sb)
    &&& forall|c: u64| #![trigger block_device::block_at(s.disk, sb.block_size, c)]
        !volume::is_group_block(st.gdt, sb, c) ==> volume::untouched(st, s, sb.block_size, c)
}

/// Freeing blocks in two steps.
pub proof fn lemma_emptier(a: FsState, b: FsState, c: FsState, sb: Superblock)
    requires
        emptier(a, b, sb),
        emptier(b, c, sb),
    ensures
        emptier(a, c, sb),
        forall|x: u64| #[trigger]
            volume::is_group_block(c.gdt, sb, x) == volume::is_group_block(a.gdt, sb, x),
{
    assert forall|x: u64| #[trigger] volume::used(c, sb, x) implies volume::used(a, sb, x) by {
        assert(volume::used(b, sb, x));
    }
    assert forall|g: int| #![trigger a.gdt[g]] #![trigger c.gdt[g]]
        0 <= g < a.gdt.len() implies a.gdt[g].block_bitmap == c.gdt[g].block_bitmap
        && a.gdt[g].inode_table == c.gdt[g].inode_table by {
        assert(a.gdt[g].block_bitmap == b.gdt[g].block_bitmap);
    }
    assert forall|x: u64| #[trigger] volume::is_group_block(c.gdt, sb, x)
        == volume::is_group_block(a.gdt, sb, x) by {
        lemma_same_groups(a, c, sb, x);
    }
}

/// Groups that lie where they lay have the same blocks.
pub proof fn lemma_same_groups(a: FsState, c: FsState, sb: Superblock, x: u64)
    requires
        volume::same_layout(a.gdt, c.gdt),
    ensures
        volume::is_group_block(c.gdt, sb, x) == volume::is_group_block(a.gdt, sb, x),
{
    reveal(volume::is_group_block);
    if volume::is_group_block(c.gdt, sb, x) {
        let g = choose|g: int|
            0 <= g < c.gdt.len() && #[trigger] volume::is_of_group(c.gdt, sb, g, x);
        assert(a.gdt[g].block_bitmap == c.gdt[g].block_bitmap);
        assert(volume::is_of_group(a.gdt, sb, g, x));
    }
    if volume::is_group_block(a.gdt, sb, x) {
        let g = choose|g: int|
            0 <= g < a.gdt.len() && #[trigger] volume::is_of_group(a.gdt, sb, g, x);
        assert(a.gdt[g].block_bitmap == c.gdt[g].block_bitmap);
        assert(volume::is_of_group(c.gdt, sb, g, x));
    }
}

proof fn lemma_gave_back_twice(a: FsState, b: FsState, c: FsState, sb: Superblock)
    requires
        gave_back(a, b, sb),
        gave_back(b, c, sb),
    ensures
        gave_back(a, c, sb),
{
    lemma_emptier(a, b, c, sb);
    assert forall|x: u64| #![trigger block_device::block_at(c.disk, sb.block_size, x)]
        !volume::is_group_block(a.gdt, sb, x) implies volume::untouched(
        a,
        c,
        sb.block_size,
        x,
    ) by {
        lemma_same_groups(a, b, sb, x);
        assert(block_device::block_at(b.disk, sb.block_size, x) == block_device::block_at(
            a.disk,
            sb.block_size,
            x,
        ));
    }
}

/// Freeing a block gives it back.
#[verifier::rlimit(100)]
pub proof fn lemma_block_freed(st: FsState, sb: Superblock, b: u64)
    requires
        readable(st, sb),
        extent_write::block_freed(st, sb, b).1 is Ok,
    ensures
        gave_back(st, extent_write::block_freed(st, sb, b).0, sb),
        readable(extent_write::block_freed(st, sb, b).0, sb),
        !volume::used(extent_write::block_freed(st, sb, b).0, sb, b),
{
    let bs = sb.block_size;
    let n = sb.blocks_per_group as int;
    let g = block_alloc::group_of(sb, b);
    let k = block_alloc::bit_of(sb, b);
    vstd::arithmetic::div_mod::lemma_div_pos_is_pos(b - sb.first_data_block, n);
    vstd::arithmetic::div_mod::lemma_mod_bound(b - sb.first_data_block, n);
    let bm = block_bitmap::loaded(st.disk, sb, st.gdt, g)->Ok_0;
    let at = st.gdt[g].block_bitmap;
    let data = bits::without_bit(bm, k);
    block_device::lemma_block_at(st.disk, bs, at);
    let s1 = fs_state::store(st, bs, at, data).0;
    let s2 = fs_state::revoke(s1, b);
    let gb = block_alloc::gdt_block(sb, g);
    let s = extent_write::block_freed(st, sb, b).0;
    let gdt = crate::group_desc::with_free_blocks(s2.gdt, g, 1);
    let x = block_alloc::tallied(FsState { gdt, ..s2 }, sb, g, 0).0;
    crate::allocator::laws::lemma_tallied(FsState { gdt, ..s2 }, sb, g, 0);
    let d = block_device::block_at(x.disk, bs, gb)->Ok_0;
    assert(s == fs_state::revoke(x, b));
    assert(gb != at);
    block_device::lemma_block_write_read(st.disk, bs, at, data, at);
    bits::lemma_bit(bm, k, k);
    assert forall|c: u64| #![trigger block_device::block_at(s.disk, bs, c)]
        !volume::is_group_block(st.gdt, sb, c) implies volume::untouched(st, s, bs, c) by {
        reveal(volume::is_group_block);
        assert(!volume::is_of_group(st.gdt, sb, g, c));
        block_device::lemma_block_write_read(st.disk, bs, at, data, c);
        writer::lemma_pin(st.txn.blocks, at, data, c);
        writer::lemma_pin(s1.txn.blocks, gb, d, c);
    }
    reveal(volume::used);
    assert forall|c: u64| #[trigger] volume::used(s, sb, c) implies volume::used(st, sb, c) by {
        let h = block_alloc::group_of(sb, c);
        let j = block_alloc::bit_of(sb, c);
        vstd::arithmetic::div_mod::lemma_div_pos_is_pos(c - sb.first_data_block, n);
        vstd::arithmetic::div_mod::lemma_mod_bound(c - sb.first_data_block, n);
        let x = st.gdt[h].block_bitmap;
        assert(s.gdt[h].block_bitmap == x);
        block_device::lemma_block_write_read(st.disk, bs, at, data, x);
        assert(gb != st.gdt[h].block_bitmap);
        if x == at {
            bits::lemma_bit(bm, k, j);
        }
    }
    assert(s.gdt[g].block_bitmap == at);
}

/// Freeing blocks in a row gives them back.
pub proof fn lemma_run_freed(st: FsState, sb: Superblock, start: u64, n: int)
    requires
        readable(st, sb),
        start + n <= u64::MAX,
        extent_write::run_freed(st, sb, start, n).1 is Ok,
    ensures
        gave_back(st, extent_write::run_freed(st, sb, start, n).0, sb),
        readable(extent_write::run_freed(st, sb, start, n).0, sb),
        forall|b: u64|
            start <= b < start + n ==> !#[trigger] volume::used(
                extent_write::run_freed(st, sb, start, n).0,
                sb,
                b,
            ),
    decreases n,
{
    if n > 0 {
        let s1 = extent_write::block_freed(st, sb, start).0;
        lemma_block_freed(st, sb, start);
        let s = extent_write::run_freed(st, sb, start, n).0;
        lemma_run_freed(s1, sb, (start + 1) as u64, n - 1);
        lemma_gave_back_twice(st, s1, s, sb);
        assert forall|b: u64| start <= b < start + n implies !#[trigger] volume::used(s, sb, b) by {
            if b == start && volume::used(s, sb, b) {
                assert(volume::used(s1, sb, b));
            }
        }
    }
}

/// The first `n` leaf entries of a node.
pub open spec fn leaf_list(node: Seq<u8>, n: int) -> Seq<ExtentLeaf> {
    Seq::new(n as nat, |i: int| extent::leaf_at(node, extent::entry_offset(i)))
}

/// Entry `i` of an inner node.
pub open spec fn kid(node: Seq<u8>, i: int) -> ExtentIdx {
    extent::idx_at(node, extent::entry_offset(i))
}

/// Removing an entry moves those behind it up.
pub proof fn lemma_without_entry(node: Seq<u8>, i: int, n: int)
    requires
        0 <= i < n,
        extent::entry_offset(n) <= node.len(),
    ensures
        ({
            let node2 = extent_write::without_entry(node, i, n);
            &&& node2.len() == node.len()
            &&& leaf_list(node2, n - 1) == leaf_list(node, n).remove(i)
            &&& forall|k: int| 0 <= k < i ==> #[trigger] kid(node2, k) == kid(node, k)
            &&& forall|k: int| i <= k < n - 1 ==> #[trigger] kid(node2, k) == kid(node, k + 1)
            &&& forall|t: int| 0 <= t < extent::entry_offset(i) ==> node2[t] == node[t]
        }),
{
    let node2 = extent_write::without_entry(node, i, n);
    let d = node.subrange(extent::entry_offset(i + 1), extent::entry_offset(n));
    assert forall|k: int| 0 <= k < n - 1 implies extent::leaf_at(
        node2,
        #[trigger] extent::entry_offset(k),
    ) == extent::leaf_at(
        node,
        extent::entry_offset(
            if k < i {
                k
            } else {
                k + 1
            },
        ),
    ) && kid(node2, k) == kid(
        node,
        if k < i {
            k
        } else {
            k + 1
        },
    ) by {
        let j = if k < i {
            k
        } else {
            k + 1
        };
        super::nodes::lemma_same_entry(
            node2,
            extent::entry_offset(k),
            node,
            extent::entry_offset(j),
        );
    }
    let v = leaf_list(node, n);
    let w = leaf_list(node2, n - 1);
    assert forall|k: int| 0 <= k < n - 1 implies w[k] == v.remove(i)[k] by {
        let o = extent::entry_offset(k);
        assert(w[k] == extent::leaf_at(node2, o));
    }
    assert(w =~= v.remove(i));
    assert forall|k: int| 0 <= k < i implies #[trigger] kid(node2, k) == kid(node, k) by {
        let o = extent::entry_offset(k);
    }
    assert forall|k: int| i <= k < n - 1 implies #[trigger] kid(node2, k) == kid(node, k + 1) by {
        let o = extent::entry_offset(k);
    }
}

/// What trims the parts trims the whole.
proof fn lemma_trimmed_joined(
    a: Seq<ExtentLeaf>,
    b: Seq<ExtentLeaf>,
    c: Seq<ExtentLeaf>,
    e: Seq<ExtentLeaf>,
    keep: u32,
)
    requires
        trimmed(a, c, keep),
        trimmed(b, e, keep),
    ensures
        trimmed(a + b, c + e, keep),
{
    assert forall|l: u64| #[trigger]
        extent::mapped(c + e, l) == (if l < keep {
            extent::mapped(a + b, l)
        } else {
            None
        }) by {
        tree::lemma_mapped_joined(a, b, l);
        tree::lemma_mapped_joined(c, e, l);
        assert(extent::mapped(c, l) == (if l < keep {
            extent::mapped(a, l)
        } else {
            None
        }));
        assert(extent::mapped(e, l) == (if l < keep {
            extent::mapped(b, l)
        } else {
            None
        }));
    }
}

proof fn lemma_given_back_joined(
    s: FsState,
    sb: Superblock,
    a: Seq<ExtentLeaf>,
    b: Seq<ExtentLeaf>,
    keep: u32,
)
    requires
        given_back(s, sb, a, keep),
        given_back(s, sb, b, keep),
    ensures
        given_back(s, sb, a + b, keep),
{
    assert forall|l: u64| l >= keep && (#[trigger] extent::mapped(a + b, l)) is Some implies
        !volume::used(s, sb, extent::mapped(a + b, l)->Some_0) by {
        tree::lemma_mapped_joined(a, b, l);
        if extent::mapped(a, l) is Some {
        } else {
            assert(extent::mapped(b, l) is Some);
        }
    }
}

proof fn lemma_given_back_later(
    st: FsState,
    s: FsState,
    sb: Superblock,
    v: Seq<ExtentLeaf>,
    keep: u32,
)
    requires
        given_back(st, sb, v, keep),
        emptier(st, s, sb),
    ensures
        given_back(s, sb, v, keep),
{
}

/// What one extent maps.
proof fn lemma_one_mapped(leaf: ExtentLeaf, l: u64)
    ensures
        extent::mapped(seq![leaf], l) == (if leaf.covers(l) {
            Some((leaf.phys() + l - leaf.ee_block) as u64)
        } else {
            None
        }),
{
    let v = seq![leaf];
    assert(v.drop_last() =~= Seq::<ExtentLeaf>::empty());
    assert(extent::mapped(Seq::<ExtentLeaf>::empty(), l) is None);
}

/// Cutting the entries of a leaf node from number `i` on.
#[verifier::rlimit(100)]
proof fn lemma_leaf_trimmed(
    st: FsState,
    sb: Superblock,
    node: Seq<u8>,
    i: int,
    n: int,
    keep: u32,
    lo: int,
    hi: int,
)
    requires
        readable(st, sb),
        0 <= i <= n <= u16::MAX,
        extent::entry_offset(n) <= node.len(),
        tree::in_range(leaf_list(node, n).skip(i), lo, hi),
        lo <= hi <= u32::MAX,
        extent_write::leaf_truncated(st, sb, node, i, n, keep).1 is Ok,
    ensures
        ({
            let (s, r) = extent_write::leaf_truncated(st, sb, node, i, n, keep);
            let (node2, left) = r->Ok_0;
            let v = leaf_list(node, n);
            let w = leaf_list(node2, left);
            &&& node2.len() == node.len()
            &&& i <= left <= n
            &&& w.take(i) == v.take(i)
            &&& trimmed(v.skip(i), w.skip(i), keep)
            &&& tree::in_range(w.skip(i), lo, hi)
            &&& given_back(s, sb, v.skip(i), keep)
            &&& gave_back(st, s, sb)
            &&& readable(s, sb)
            &&& forall|t: int| 0 <= t < 12 ==> node2[t] == node[t]
        }),
    decreases n - i,
{
    let v = leaf_list(node, n);
    let (s, r) = extent_write::leaf_truncated(st, sb, node, i, n, keep);
    let (node2, left) = r->Ok_0;
    let w = leaf_list(node2, left);
    if i == n {
        assert(v.skip(i) =~= Seq::<ExtentLeaf>::empty());
    } else {
        let off = extent::entry_offset(i);
        let leaf = extent::leaf_at(node, off);
        assert(leaf == v[i]);
        let end = leaf.ee_block + leaf.blocks();
        assert(v.skip(i) =~= seq![leaf] + v.skip(i + 1));
        assert(v.skip(i)[0] == leaf);
        assert(tree::in_range(v.skip(i + 1), end, hi)) by {
            let x = v.skip(i);
            let y = v.skip(i + 1);
            assert forall|k: int| #![trigger y[k]] 0 <= k < y.len() implies end <= y[k].ee_block
                && y[k].blocks() > 0 && y[k].ee_block + y[k].blocks() <= hi by {
                assert(y[k] == x[k + 1]);
                assert(x[0].ee_block + x[0].blocks() <= x[k + 1].ee_block);
            }
            assert forall|j: int, k: int| #![trigger y[j], y[k]]
                0 <= j < k < y.len() implies y[j].ee_block + y[j].blocks() <= y[k].ee_block by {
                assert(y[j] == x[j + 1] && y[k] == x[k + 1]);
            }
        }
        if leaf.ee_block >= keep {
            let s1 = extent_write::run_freed(st, sb, leaf.phys(), leaf.blocks()).0;
            lemma_run_freed(st, sb, leaf.phys(), leaf.blocks());
            let next = extent_write::without_entry(node, i, n);
            lemma_without_entry(node, i, n);
            let x = leaf_list(next, n - 1);
            assert(x.skip(i) =~= v.skip(i + 1));
            lemma_leaf_trimmed(s1, sb, next, i, n - 1, keep, end, hi);
            lemma_gave_back_twice(st, s1, s, sb);
            lemma_wider_range(w.skip(i), end, lo, hi);
            assert(x.take(i) =~= v.take(i));
            let none = Seq::<ExtentLeaf>::empty();
            assert(trimmed(seq![leaf], none, keep)) by {
                assert forall|l: u64| #[trigger]
                    extent::mapped(none, l) == (if l < keep {
                        extent::mapped(seq![leaf], l)
                    } else {
                        None
                    }) by {
                    lemma_one_mapped(leaf, l);
                }
            }
            lemma_trimmed_joined(seq![leaf], v.skip(i + 1), none, w.skip(i), keep);
            assert(none + w.skip(i) =~= w.skip(i));
            assert(given_back(s, sb, seq![leaf], keep)) by {
                assert forall|l: u64|
                    l >= keep && (#[trigger] extent::mapped(seq![leaf], l)) is Some implies
                    !volume::used(s, sb, extent::mapped(seq![leaf], l)->Some_0) by {
                    lemma_one_mapped(leaf, l);
                    let b = extent::mapped(seq![leaf], l)->Some_0;
                    assert(!volume::used(s1, sb, b));
                }
            }
            lemma_given_back_joined(s, sb, seq![leaf], v.skip(i + 1), keep);
        } else if end > keep {
            let kept = keep - leaf.ee_block;
            let s1 = extent_write::run_freed(st, sb, (leaf.phys() + kept) as u64, end - keep).0;
            lemma_run_freed(st, sb, (leaf.phys() + kept) as u64, end - keep);
            let len = (if leaf.uninit() {
                kept + MAX_INIT_LEN
            } else {
                kept
            }) as u16;
            let next = bytes::put(node, off + 4, bytes::le16_bytes(len));
            let cut = ExtentLeaf { ee_len: len, ..leaf };
            lemma_cut_entry(node, i, n, len);
            let x = leaf_list(next, n);
            assert(x.skip(i + 1) =~= v.skip(i + 1));
            lemma_leaf_trimmed(s1, sb, next, i + 1, n, keep, end, hi);
            lemma_gave_back_twice(st, s1, s, sb);
            assert(w.take(i) =~= v.take(i)) by {
                assert forall|k: int| 0 <= k < i implies w[k] == v[k] by {
                    assert(w.take(i + 1)[k] == x.take(i + 1)[k]);
                }
            }
            assert(w[i] == cut) by {
                assert(w.take(i + 1)[i] == x.take(i + 1)[i]);
            }
            assert(w.skip(i) =~= seq![cut] + w.skip(i + 1));
            tree::lemma_in_range_joined(seq![cut], w.skip(i + 1), lo, end, end, hi);
            assert(trimmed(seq![leaf], seq![cut], keep)) by {
                assert forall|l: u64| #[trigger]
                    extent::mapped(seq![cut], l) == (if l < keep {
                        extent::mapped(seq![leaf], l)
                    } else {
                        None
                    }) by {
                    lemma_one_mapped(leaf, l);
                    lemma_one_mapped(cut, l);
                }
            }
            lemma_trimmed_joined(seq![leaf], v.skip(i + 1), seq![cut], w.skip(i + 1), keep);
            assert(given_back(s, sb, seq![leaf], keep)) by {
                assert forall|l: u64|
                    l >= keep && (#[trigger] extent::mapped(seq![leaf], l)) is Some implies
                    !volume::used(s, sb, extent::mapped(seq![leaf], l)->Some_0) by {
                    lemma_one_mapped(leaf, l);
                    let b = extent::mapped(seq![leaf], l)->Some_0;
                    assert(!volume::used(s1, sb, b));
                }
            }
            lemma_given_back_joined(s, sb, seq![leaf], v.skip(i + 1), keep);
        } else {
            lemma_leaf_trimmed(st, sb, node, i + 1, n, keep, end, hi);
            assert(w.take(i) =~= v.take(i)) by {
                assert forall|k: int| 0 <= k < i implies w[k] == v[k] by {
                    assert(w.take(i + 1)[k] == v.take(i + 1)[k]);
                }
            }
            assert(w[i] == leaf) by {
                assert(w.take(i + 1)[i] == v.take(i + 1)[i]);
            }
            assert(w.skip(i) =~= seq![leaf] + w.skip(i + 1));
            tree::lemma_in_range_joined(seq![leaf], w.skip(i + 1), lo, end, end, hi);
            assert(trimmed(seq![leaf], seq![leaf], keep)) by {
                assert forall|l: u64| #[trigger]
                    extent::mapped(seq![leaf], l) == (if l < keep {
                        extent::mapped(seq![leaf], l)
                    } else {
                        None
                    }) by {
                    lemma_one_mapped(leaf, l);
                }
            }
            lemma_trimmed_joined(seq![leaf], v.skip(i + 1), seq![leaf], w.skip(i + 1), keep);
            assert(given_back(s, sb, seq![leaf], keep)) by {
                assert forall|l: u64|
                    l >= keep && (#[trigger] extent::mapped(seq![leaf], l)) is Some implies
                    !volume::used(s, sb, extent::mapped(seq![leaf], l)->Some_0) by {
                    lemma_one_mapped(leaf, l);
                }
            }
            lemma_given_back_joined(s, sb, seq![leaf], v.skip(i + 1), keep);
        }
    }
}

/// Extents in order over a range are in order over a wider one.
proof fn lemma_wider_range(v: Seq<ExtentLeaf>, from: int, lo: int, hi: int)
    requires
        tree::in_range(v, from, hi),
        lo <= from,
    ensures
        tree::in_range(v, lo, hi),
{
}

/// An entry whose length was changed.
pub proof fn lemma_cut_entry(node: Seq<u8>, i: int, n: int, len: u16)
    requires
        0 <= i < n,
        extent::entry_offset(n) <= node.len(),
    ensures
        ({
            let node2 = bytes::put(
                node,
                extent::entry_offset(i) + 4,
                bytes::le16_bytes(len),
            );
            let v = leaf_list(node, n);
            &&& node2.len() == node.len()
            &&& leaf_list(node2, n) == v.update(i, ExtentLeaf { ee_len: len, ..v[i] })
            &&& forall|t: int| 0 <= t < extent::entry_offset(i) ==> node2[t] == node[t]
        }),
{
    broadcast use crate::bytes::group_codec;

    let node2 = bytes::put(node, extent::entry_offset(i) + 4, bytes::le16_bytes(len));
    let v = leaf_list(node, n);
    let w = leaf_list(node2, n);
    assert forall|k: int| 0 <= k < n implies w[k] == v.update(
        i,
        ExtentLeaf { ee_len: len, ..v[i] },
    )[k] by {
        if k != i {
            super::nodes::lemma_same_entry(
                node2,
                extent::entry_offset(k),
                node,
                extent::entry_offset(k),
            );
        }
    }
    assert(w =~= v.update(i, ExtentLeaf { ee_len: len, ..v[i] }));
}

/// Where the logical blocks under entry `k` of `n` end.
pub open spec fn stop(node: Seq<u8>, k: int, n: int, hi: int) -> int {
    if k + 1 < n {
        kid(node, k + 1).ei_block as int
    } else {
        hi
    }
}

/// The node under entry `k`.
pub open spec fn kid_node(disk: Seq<u8>, bs: u32, node: Seq<u8>, k: int) -> Result<
    Seq<u8>,
    BlockDeviceError,
> {
    block_device::block_at(disk, bs, kid(node, k).child())
}

/// Whether the subtree under entry `k` of `n` is sound.
pub open spec fn kid_sound(
    disk: Seq<u8>,
    bs: u32,
    node: Seq<u8>,
    d: nat,
    k: int,
    n: int,
    hi: int,
) -> bool {
    let c = kid_node(disk, bs, node, k);
    &&& 0 <= kid(node, k).ei_block <= stop(node, k, n, hi) <= hi
    &&& c is Ok
    &&& tree::inhabited(c->Ok_0)
    &&& tree::sound(
        disk,
        bs,
        c->Ok_0,
        (d - 1) as nat,
        kid(node, k).ei_block as int,
        stop(node, k, n, hi),
    )
}

/// Whether the subtrees from entry `i` to `n` are sound.
pub open spec fn kids_sound(
    disk: Seq<u8>,
    bs: u32,
    node: Seq<u8>,
    d: nat,
    i: int,
    n: int,
    hi: int,
) -> bool {
    forall|k: int| i <= k < n ==> #[trigger] kid_sound(disk, bs, node, d, k, n, hi)
}

/// Whether block `c` holds a node of one of those subtrees.
pub open spec fn kids_hold(
    disk: Seq<u8>,
    bs: u32,
    node: Seq<u8>,
    d: nat,
    i: int,
    n: int,
    c: u64,
) -> bool {
    exists|k: int| i <= k < n && #[trigger] kid_holds(disk, bs, node, d, k, c)
}

/// Whether block `c` holds a node of the subtree under entry `k`.
pub open spec fn kid_holds(
    disk: Seq<u8>,
    bs: u32,
    node: Seq<u8>,
    d: nat,
    k: int,
    c: u64,
) -> bool {
    kid(node, k).child() == c || tree::within(
        disk,
        bs,
        kid_node(disk, bs, node, k)->Ok_0,
        (d - 1) as nat,
        c,
    )
}

/// The extents under the entries from `i` to `n`.
pub open spec fn kid_leaves(
    disk: Seq<u8>,
    bs: u32,
    node: Seq<u8>,
    i: int,
    n: int,
    hops: nat,
) -> Result<Seq<ExtentLeaf>, ExtentError>
    decreases n - i,
{
    if i >= n {
        Ok(Seq::empty())
    } else {
        match kid_node(disk, bs, node, i) {
            Err(e) => Err(ExtentError::BlockDevice(e)),
            Ok(c) => match extent::tree_leaves(disk, bs, c, (hops - 1) as nat) {
                Err(e) => Err(e),
                Ok(a) => match kid_leaves(disk, bs, node, i + 1, n, hops) {
                    Err(e) => Err(e),
                    Ok(b) => Ok(a + b),
                },
            },
        }
    }
}

/// The extents under one entry more.
proof fn lemma_kid_leaves_more(
    disk: Seq<u8>,
    bs: u32,
    node: Seq<u8>,
    i: int,
    n: int,
    hops: nat,
)
    requires
        i <= n,
        kid_leaves(disk, bs, node, i, n, hops) is Ok,
        kid_node(disk, bs, node, n) is Ok,
        extent::tree_leaves(
            disk,
            bs,
            kid_node(disk, bs, node, n)->Ok_0,
            (hops - 1) as nat,
        ) is Ok,
    ensures
        kid_leaves(disk, bs, node, i, n + 1, hops) == Ok::<Seq<ExtentLeaf>, ExtentError>(
            kid_leaves(disk, bs, node, i, n, hops)->Ok_0 + extent::tree_leaves(
                disk,
                bs,
                kid_node(disk, bs, node, n)->Ok_0,
                (hops - 1) as nat,
            )->Ok_0,
        ),
    decreases n - i,
{
    let x = extent::tree_leaves(
        disk,
        bs,
        kid_node(disk, bs, node, n)->Ok_0,
        (hops - 1) as nat,
    )->Ok_0;
    let none = Seq::<ExtentLeaf>::empty();
    if i == n {
        assert(kid_leaves(disk, bs, node, n + 1, n + 1, hops) == Ok::<
            Seq<ExtentLeaf>,
            ExtentError,
        >(none));
        assert(x + none =~= none + x);
    } else {
        lemma_kid_leaves_more(disk, bs, node, i + 1, n, hops);
        let a = extent::tree_leaves(
            disk,
            bs,
            kid_node(disk, bs, node, i)->Ok_0,
            (hops - 1) as nat,
        )->Ok_0;
        let b = kid_leaves(disk, bs, node, i + 1, n, hops)->Ok_0;
        assert(a + (b + x) =~= (a + b) + x);
    }
}

/// What is listed entry by entry from the right is what is listed from the left.
proof fn lemma_kid_leaves_all(disk: Seq<u8>, bs: u32, node: Seq<u8>, k: int, hops: nat)
    requires
        0 <= k <= extent::header(node).eh_entries,
        hops > 0,
        kid_leaves(disk, bs, node, 0, k, hops) is Ok,
    ensures
        extent::child_leaves(disk, bs, node, k, hops) == kid_leaves(disk, bs, node, 0, k, hops),
    decreases k,
{
    if k > 0 {
        lemma_kid_leaves_prefix(disk, bs, node, 0, k, hops);
        lemma_kid_leaves_all(disk, bs, node, k - 1, hops);
        lemma_kid_leaves_more(disk, bs, node, 0, k - 1, hops);
        assert(extent::node_idxs(node)[k - 1] == kid(node, k - 1));
    }
}

/// Where all can be listed, so can all but the last.
proof fn lemma_kid_leaves_prefix(disk: Seq<u8>, bs: u32, node: Seq<u8>, i: int, n: int, hops: nat)
    requires
        i < n,
        kid_leaves(disk, bs, node, i, n, hops) is Ok,
    ensures
        kid_leaves(disk, bs, node, i, n - 1, hops) is Ok,
        kid_node(disk, bs, node, n - 1) is Ok,
        extent::tree_leaves(
            disk,
            bs,
            kid_node(disk, bs, node, n - 1)->Ok_0,
            (hops - 1) as nat,
        ) is Ok,
    decreases n - i,
{
    if i < n - 1 {
        lemma_kid_leaves_prefix(disk, bs, node, i + 1, n, hops);
    }
}

/// Sound subtrees can be listed.
proof fn lemma_kids_listed(
    disk: Seq<u8>,
    bs: u32,
    node: Seq<u8>,
    d: nat,
    i: int,
    n: int,
    hi: int,
    hops: nat,
)
    requires
        kids_sound(disk, bs, node, d, i, n, hi),
        0 < d <= hops,
        i <= n,
    ensures
        kid_leaves(disk, bs, node, i, n, hops) is Ok,
    decreases n - i,
{
    if i < n {
        assert(kid_sound(disk, bs, node, d, i, n, hi));
        tree::law_listed(
            disk,
            bs,
            kid_node(disk, bs, node, i)->Ok_0,
            (d - 1) as nat,
            kid(node, i).ei_block as int,
            stop(node, i, n, hi),
            (hops - 1) as nat,
        );
        assert(kids_sound(disk, bs, node, d, i + 1, n, hi));
        lemma_kids_listed(disk, bs, node, d, i + 1, n, hi, hops);
    }
}

/// The entries of a sound inner node lead to sound subtrees.
proof fn lemma_kids_of(disk: Seq<u8>, bs: u32, node: Seq<u8>, d: nat, lo: int, hi: int, hops: nat)
    requires
        tree::sound(disk, bs, node, d, lo, hi),
        0 <= lo <= hi,
        0 < d <= hops,
    ensures
        kids_sound(disk, bs, node, d, 0, extent::header(node).eh_entries as int, hi),
        extent::tree_leaves(disk, bs, node, hops) == kid_leaves(
            disk,
            bs,
            node,
            0,
            extent::header(node).eh_entries as int,
            hops,
        ),
        forall|c: u64| #[trigger]
            tree::within(disk, bs, node, d, c) == kids_hold(
                disk,
                bs,
                node,
                d,
                0,
                extent::header(node).eh_entries as int,
                c,
            ),
{
    let n = extent::header(node).eh_entries as int;
    let idxs = extent::node_idxs(node);
    assert forall|k: int| 0 <= k < n implies #[trigger] kid_sound(
        disk,
        bs,
        node,
        d,
        k,
        n,
        hi,
    ) by {
        let c = tree::child_of(disk, bs, node, k);
        assert(c is Ok);
        assert(idxs[k] == kid(node, k));
        if k + 1 < n {
            assert(idxs[k + 1] == kid(node, k + 1));
        }
    }
    lemma_kids_listed(disk, bs, node, d, 0, n, hi, hops);
    lemma_kid_leaves_all(disk, bs, node, n, hops);
    assert forall|c: u64| #[trigger] tree::within(disk, bs, node, d, c) == kids_hold(
        disk,
        bs,
        node,
        d,
        0,
        n,
        c,
    ) by {
        if tree::within(disk, bs, node, d, c) {
            let k = choose|k: int|
                0 <= k < n && {
                    let x = #[trigger] tree::child_of(disk, bs, node, k);
                    ||| idxs[k].child() == c
                    ||| x is Ok && tree::within(disk, bs, x->Ok_0, (d - 1) as nat, c)
                };
            assert(idxs[k] == kid(node, k));
            assert(kid_holds(disk, bs, node, d, k, c));
        }
        if kids_hold(disk, bs, node, d, 0, n, c) {
            let k = choose|k: int| 0 <= k < n && #[trigger] kid_holds(disk, bs, node, d, k, c);
            assert(idxs[k] == kid(node, k));
            assert(kid_sound(disk, bs, node, d, k, n, hi));
            assert(tree::child_of(disk, bs, node, k) is Ok);
        }
    }
}

/// The keys of sound subtrees ascend.
proof fn lemma_kid_keys(
    disk: Seq<u8>,
    bs: u32,
    node: Seq<u8>,
    d: nat,
    j: int,
    k: int,
    n: int,
    hi: int,
)
    requires
        kids_sound(disk, bs, node, d, j, n, hi),
        0 < d,
        j < k < n,
    ensures
        stop(node, j, n, hi) <= kid(node, k).ei_block,
    decreases k - j,
{
    assert(kid_sound(disk, bs, node, d, j, n, hi));
    if j + 1 < k {
        assert(kid_sound(disk, bs, node, d, j + 1, n, hi));
        assert(kids_sound(disk, bs, node, d, j + 1, n, hi));
        lemma_kid_keys(disk, bs, node, d, j + 1, k, n, hi);
    }
}

/// No block is in two subtrees.
proof fn lemma_kids_apart(
    disk: Seq<u8>,
    bs: u32,
    node: Seq<u8>,
    d: nat,
    j: int,
    k: int,
    n: int,
    hi: int,
    c: u64,
)
    requires
        kids_sound(disk, bs, node, d, j, n, hi),
        0 < d,
        j < k < n,
    ensures
        !(kid_holds(disk, bs, node, d, j, c) && kid_holds(disk, bs, node, d, k, c)),
{
    if kid_holds(disk, bs, node, d, j, c) && kid_holds(disk, bs, node, d, k, c) {
        lemma_kid_keys(disk, bs, node, d, j, k, n, hi);
        let a = lemma_kid_range(disk, bs, node, d, j, n, hi, c);
        let b = lemma_kid_range(disk, bs, node, d, k, n, hi, c);
        let x = block_device::block_at(disk, bs, c)->Ok_0;
        assert(a.0 == b.0);
        tree::law_listed(disk, bs, x, a.0, a.1, a.2, a.0);
        tree::law_listed(disk, bs, x, b.0, b.1, b.2, b.0);
        let v = extent::tree_leaves(disk, bs, x, a.0)->Ok_0;
        assert(v[0].ee_block + v[0].blocks() <= a.2);
        assert(v[0].ee_block >= b.1);
        assert(v[0].blocks() > 0);
    }
}

/// A node of the subtree under entry `k` is sound over part of its range.
proof fn lemma_kid_range(
    disk: Seq<u8>,
    bs: u32,
    node: Seq<u8>,
    d: nat,
    k: int,
    n: int,
    hi: int,
    c: u64,
) -> (r: (nat, int, int))
    requires
        kid_sound(disk, bs, node, d, k, n, hi),
        kid_holds(disk, bs, node, d, k, c),
        0 < d,
    ensures
        kid(node, k).ei_block <= r.1 <= r.2 <= stop(node, k, n, hi),
        block_device::block_at(disk, bs, c) is Ok,
        tree::inhabited(block_device::block_at(disk, bs, c)->Ok_0),
        tree::sound(disk, bs, block_device::block_at(disk, bs, c)->Ok_0, r.0, r.1, r.2),
        extent::header(block_device::block_at(disk, bs, c)->Ok_0).eh_depth == r.0,
{
    let x = kid_node(disk, bs, node, k)->Ok_0;
    let key = kid(node, k).ei_block as int;
    let end = stop(node, k, n, hi);
    if kid(node, k).child() == c {
        ((d - 1) as nat, key, end)
    } else {
        tree::lemma_node_of(disk, bs, x, (d - 1) as nat, key, end, c)
    }
}

/// Subtrees whose nodes did not change are the same.
proof fn lemma_kids_kept(
    disk: Seq<u8>,
    other: Seq<u8>,
    bs: u32,
    node: Seq<u8>,
    d: nat,
    i: int,
    n: int,
    hi: int,
    hops: nat,
)
    requires
        kids_sound(disk, bs, node, d, i, n, hi),
        0 < d <= hops,
        i <= n,
        forall|c: u64| #[trigger]
            kids_hold(disk, bs, node, d, i, n, c) ==> block_device::block_at(other, bs, c)
                == block_device::block_at(disk, bs, c),
    ensures
        kids_sound(other, bs, node, d, i, n, hi),
        kid_leaves(other, bs, node, i, n, hops) == kid_leaves(disk, bs, node, i, n, hops),
        forall|k: int, c: u64| #![trigger kid_holds(other, bs, node, d, k, c)]
            i <= k < n ==> kid_holds(other, bs, node, d, k, c) == kid_holds(
                disk,
                bs,
                node,
                d,
                k,
                c,
            ),
    decreases n - i,
{
    assert forall|k: int| i <= k < n implies {
        let x = kid_node(disk, bs, node, k)->Ok_0;
        &&& #[trigger] kid_sound(other, bs, node, d, k, n, hi)
        &&& kid_node(other, bs, node, k) == kid_node(disk, bs, node, k)
        &&& extent::tree_leaves(other, bs, x, (hops - 1) as nat) == extent::tree_leaves(
            disk,
            bs,
            x,
            (hops - 1) as nat,
        )
        &&& forall|c: u64| #[trigger]
            tree::within(other, bs, x, (d - 1) as nat, c) == tree::within(
                disk,
                bs,
                x,
                (d - 1) as nat,
                c,
            )
    } by {
        lemma_kid_kept(disk, other, bs, node, d, i, k, n, hi, hops);
    }
    assert forall|k: int, c: u64| #![trigger kid_holds(other, bs, node, d, k, c)]
        i <= k < n implies kid_holds(other, bs, node, d, k, c) == kid_holds(
        disk,
        bs,
        node,
        d,
        k,
        c,
    ) by {
        assert(kid_sound(other, bs, node, d, k, n, hi));
        let x = kid_node(disk, bs, node, k)->Ok_0;
        assert(tree::within(other, bs, x, (d - 1) as nat, c) == tree::within(
            disk,
            bs,
            x,
            (d - 1) as nat,
            c,
        ));
    }
    if i < n {
        assert(kid_sound(other, bs, node, d, i, n, hi));
        assert(kids_sound(disk, bs, node, d, i + 1, n, hi));
        assert forall|c: u64| #[trigger] kids_hold(disk, bs, node, d, i + 1, n, c) implies
            block_device::block_at(other, bs, c) == block_device::block_at(disk, bs, c) by {
            let k = choose|k: int| i + 1 <= k < n && #[trigger] kid_holds(disk, bs, node, d, k, c);
            assert(kids_hold(disk, bs, node, d, i, n, c));
        }
        lemma_kids_kept(disk, other, bs, node, d, i + 1, n, hi, hops);
    }
}

proof fn lemma_kid_kept(
    disk: Seq<u8>,
    other: Seq<u8>,
    bs: u32,
    node: Seq<u8>,
    d: nat,
    i: int,
    k: int,
    n: int,
    hi: int,
    hops: nat,
)
    requires
        kids_sound(disk, bs, node, d, i, n, hi),
        0 < d <= hops,
        i <= k < n,
        forall|c: u64| #[trigger]
            kids_hold(disk, bs, node, d, i, n, c) ==> block_device::block_at(other, bs, c)
                == block_device::block_at(disk, bs, c),
    ensures
        kid_sound(other, bs, node, d, k, n, hi),
        kid_node(other, bs, node, k) == kid_node(disk, bs, node, k),
        extent::tree_leaves(
            other,
            bs,
            kid_node(disk, bs, node, k)->Ok_0,
            (hops - 1) as nat,
        ) == extent::tree_leaves(
            disk,
            bs,
            kid_node(disk, bs, node, k)->Ok_0,
            (hops - 1) as nat,
        ),
        forall|c: u64| #[trigger]
            tree::within(other, bs, kid_node(disk, bs, node, k)->Ok_0, (d - 1) as nat, c)
                == tree::within(
                disk,
                bs,
                kid_node(disk, bs, node, k)->Ok_0,
                (d - 1) as nat,
                c,
            ),
{
    let x = kid_node(disk, bs, node, k)->Ok_0;
    assert(kid_sound(disk, bs, node, d, k, n, hi));
    assert(kid_holds(disk, bs, node, d, k, kid(node, k).child()));
    assert(kids_hold(disk, bs, node, d, i, n, kid(node, k).child()));
    assert forall|c: u64| #[trigger] tree::within(disk, bs, x, (d - 1) as nat, c) implies
        block_device::block_at(other, bs, c) == block_device::block_at(disk, bs, c) by {
        assert(kid_holds(disk, bs, node, d, k, c));
        assert(kids_hold(disk, bs, node, d, i, n, c));
    }
    tree::law_depends_on_nodes(
        disk,
        other,
        bs,
        x,
        (d - 1) as nat,
        kid(node, k).ei_block as int,
        stop(node, k, n, hi),
        (hops - 1) as nat,
    );
}

/// Freeing what a leaf node maps, from entry `i` on.
proof fn lemma_leaves_freed(st: FsState, sb: Superblock, node: Seq<u8>, i: int, n: int)
    requires
        readable(st, sb),
        0 <= i <= n,
        extent_write::leaves_freed(st, sb, node, i, n).1 is Ok,
    ensures
        gave_back(st, extent_write::leaves_freed(st, sb, node, i, n).0, sb),
        readable(extent_write::leaves_freed(st, sb, node, i, n).0, sb),
        given_back(
            extent_write::leaves_freed(st, sb, node, i, n).0,
            sb,
            leaf_list(node, n).skip(i),
            0,
        ),
    decreases n - i,
{
    let v = leaf_list(node, n);
    let s = extent_write::leaves_freed(st, sb, node, i, n).0;
    if i == n {
        assert(v.skip(i) =~= Seq::<ExtentLeaf>::empty());
    } else {
        let leaf = extent::leaf_at(node, extent::entry_offset(i));
        let s1 = extent_write::run_freed(st, sb, leaf.phys(), leaf.blocks()).0;
        lemma_run_freed(st, sb, leaf.phys(), leaf.blocks());
        lemma_leaves_freed(s1, sb, node, i + 1, n);
        lemma_gave_back_twice(st, s1, s, sb);
        assert(v.skip(i) =~= seq![leaf] + v.skip(i + 1));
        assert(given_back(s, sb, seq![leaf], 0)) by {
            assert forall|l: u64| l >= 0 && (#[trigger] extent::mapped(
                seq![leaf],
                l,
            )) is Some implies
                !volume::used(s, sb, extent::mapped(seq![leaf], l)->Some_0) by {
                lemma_one_mapped(leaf, l);
                let b = extent::mapped(seq![leaf], l)->Some_0;
                assert(!volume::used(s1, sb, b));
            }
        }
        lemma_given_back_joined(s, sb, seq![leaf], v.skip(i + 1), 0);
    }
}

/// Freeing a sound subtree gives back all that it maps.
#[verifier::rlimit(100)]
proof fn lemma_subtree_freed(
    st: FsState,
    sb: Superblock,
    at: u64,
    d: nat,
    lo: int,
    hi: int,
    hops: nat,
)
    requires
        readable(st, sb),
        0 <= lo <= hi,
        d <= hops,
        block_device::block_at(st.disk, sb.block_size, at) is Ok,
        tree::sound(
            st.disk,
            sb.block_size,
            block_device::block_at(st.disk, sb.block_size, at)->Ok_0,
            d,
            lo,
            hi,
        ),
        forall|c: u64| #[trigger]
            tree::within(
                st.disk,
                sb.block_size,
                block_device::block_at(st.disk, sb.block_size, at)->Ok_0,
                d,
                c,
            ) ==> !volume::is_group_block(st.gdt, sb, c),
        extent_write::subtree_freed(st, sb, at, d).1 is Ok,
    ensures
        gave_back(st, extent_write::subtree_freed(st, sb, at, d).0, sb),
        readable(extent_write::subtree_freed(st, sb, at, d).0, sb),
        given_back(
            extent_write::subtree_freed(st, sb, at, d).0,
            sb,
            extent::tree_leaves(
                st.disk,
                sb.block_size,
                block_device::block_at(st.disk, sb.block_size, at)->Ok_0,
                hops,
            )->Ok_0,
            0,
        ),
    decreases d, 70000int,
{
    let bs = sb.block_size;
    let node = block_device::block_at(st.disk, bs, at)->Ok_0;
    let n = extent::header(node).eh_entries as int;
    let v = extent::tree_leaves(st.disk, bs, node, hops)->Ok_0;
    let s1 = if d == 0 {
        extent_write::leaves_freed(st, sb, node, 0, n).0
    } else {
        extent_write::children_freed(st, sb, node, 0, n, d).0
    };
    if d == 0 {
        lemma_leaves_freed(st, sb, node, 0, n);
        assert(leaf_list(node, n).skip(0) =~= extent::node_leaves(node));
    } else {
        lemma_kids_of(st.disk, bs, node, d, lo, hi, hops);
        assert forall|c: u64| #[trigger] kids_hold(st.disk, bs, node, d, 0, n, c) implies
            !volume::is_group_block(st.gdt, sb, c) by {
            assert(tree::within(st.disk, bs, node, d, c));
        }
        lemma_children_freed(st, sb, node, 0, n, d, hi, hops);
    }
    let s = extent_write::block_freed(s1, sb, at).0;
    lemma_block_freed(s1, sb, at);
    lemma_gave_back_twice(st, s1, s, sb);
    lemma_given_back_later(s1, s, sb, v, 0);
}

#[verifier::rlimit(100)]
proof fn lemma_children_freed(
    st: FsState,
    sb: Superblock,
    node: Seq<u8>,
    i: int,
    n: int,
    d: nat,
    hi: int,
    hops: nat,
)
    requires
        readable(st, sb),
        0 <= i <= n,
        0 < d <= hops,
        kids_sound(st.disk, sb.block_size, node, d, i, n, hi),
        forall|c: u64| #[trigger]
            kids_hold(st.disk, sb.block_size, node, d, i, n, c) ==> !volume::is_group_block(
                st.gdt,
                sb,
                c,
            ),
        extent_write::children_freed(st, sb, node, i, n, d).1 is Ok,
    ensures
        gave_back(st, extent_write::children_freed(st, sb, node, i, n, d).0, sb),
        readable(extent_write::children_freed(st, sb, node, i, n, d).0, sb),
        given_back(
            extent_write::children_freed(st, sb, node, i, n, d).0,
            sb,
            kid_leaves(st.disk, sb.block_size, node, i, n, hops)->Ok_0,
            0,
        ),
    decreases d, n - i,
{
    let bs = sb.block_size;
    lemma_kids_listed(st.disk, bs, node, d, i, n, hi, hops);
    if i < n {
        let at = kid(node, i).child();
        let x = kid_node(st.disk, bs, node, i)->Ok_0;
        assert(kid_sound(st.disk, bs, node, d, i, n, hi));
        assert forall|c: u64| #[trigger] tree::within(st.disk, bs, x, (d - 1) as nat, c) implies
            !volume::is_group_block(st.gdt, sb, c) by {
            assert(kid_holds(st.disk, bs, node, d, i, c));
            assert(kids_hold(st.disk, bs, node, d, i, n, c));
        }
        let s1 = extent_write::subtree_freed(st, sb, at, (d - 1) as nat).0;
        lemma_subtree_freed(
            st,
            sb,
            at,
            (d - 1) as nat,
            kid(node, i).ei_block as int,
            stop(node, i, n, hi),
            (hops - 1) as nat,
        );
        assert(kids_sound(st.disk, bs, node, d, i + 1, n, hi));
        assert forall|c: u64| #[trigger] kids_hold(st.disk, bs, node, d, i + 1, n, c) implies
            !volume::is_group_block(st.gdt, sb, c) && block_device::block_at(s1.disk, bs, c)
            == block_device::block_at(st.disk, bs, c) by {
            let k = choose|k: int|
                i + 1 <= k < n && #[trigger] kid_holds(st.disk, bs, node, d, k, c);
            assert(kids_hold(st.disk, bs, node, d, i, n, c));
        }
        lemma_kids_kept(st.disk, s1.disk, bs, node, d, i + 1, n, hi, hops);
        assert forall|c: u64| #[trigger] kids_hold(s1.disk, bs, node, d, i + 1, n, c) implies
            !volume::is_group_block(s1.gdt, sb, c) by {
            let k = choose|k: int|
                i + 1 <= k < n && #[trigger] kid_holds(s1.disk, bs, node, d, k, c);
            assert(kid_holds(st.disk, bs, node, d, k, c));
            assert(kids_hold(st.disk, bs, node, d, i + 1, n, c));
            lemma_same_groups(st, s1, sb, c);
        }
        lemma_children_freed(s1, sb, node, i + 1, n, d, hi, hops);
        let s = extent_write::children_freed(st, sb, node, i, n, d).0;
        lemma_gave_back_twice(st, s1, s, sb);
        let a = extent::tree_leaves(st.disk, bs, x, (hops - 1) as nat)->Ok_0;
        let b = kid_leaves(st.disk, bs, node, i + 1, n, hops)->Ok_0;
        lemma_given_back_later(s1, s, sb, a, 0);
        lemma_given_back_joined(s, sb, a, b, 0);
    }
}

/// Whether `s` is `st` with part of the tree under `node` cut off: nothing but
/// the groups' blocks and the tree's nodes changed.
pub open spec fn cut_off(
    st: FsState,
    s: FsState,
    sb: Superblock,
    node: Seq<u8>,
    d: nat,
) -> bool {
    &&& emptier(st, s, sb)
    &&& forall|c: u64| #![trigger block_device::block_at(s.disk, sb.block_size, c)]
        !volume::is_group_block(st.gdt, sb, c) && !tree::within(
            st.disk,
            sb.block_size,
            node,
            d,
            c,
        ) ==> volume::untouched(st, s, sb.block_size, c)
}

/// The same for the subtrees from entry `i` to `n`.
pub open spec fn kids_cut_off(
    st: FsState,
    s: FsState,
    sb: Superblock,
    node: Seq<u8>,
    d: nat,
    i: int,
    n: int,
) -> bool {
    &&& emptier(st, s, sb)
    &&& forall|c: u64| #![trigger block_device::block_at(s.disk, sb.block_size, c)]
        !volume::is_group_block(st.gdt, sb, c) && !kids_hold(
            st.disk,
            sb.block_size,
            node,
            d,
            i,
            n,
            c,
        ) ==> volume::untouched(st, s, sb.block_size, c)
}

/// Cutting a tree. `end` is a disk on which the tree's blocks are as they are
/// then; gives the extents that are listed there.
#[verifier::rlimit(100)]
proof fn lemma_node_cut(
    st: FsState,
    sb: Superblock,
    node: Seq<u8>,
    d: nat,
    lo: int,
    hi: int,
    keep: u32,
    is_root: bool,
    hops: nat,
    end: Seq<u8>,
) -> (w: Seq<ExtentLeaf>)
    requires
        readable(st, sb),
        0 <= lo <= hi <= u32::MAX,
        d <= hops,
        tree::sound(st.disk, sb.block_size, node, d, lo, hi),
        forall|c: u64| #[trigger]
            tree::within(st.disk, sb.block_size, node, d, c) ==> !volume::is_group_block(
                st.gdt,
                sb,
                c,
            ),
        extent_write::node_truncated(st, sb, node, d, keep, is_root).1 is Ok,
        forall|c: u64| #[trigger]
            tree::within(st.disk, sb.block_size, node, d, c) ==> block_device::block_at(
                end,
                sb.block_size,
                c,
            ) == block_device::block_at(
                extent_write::node_truncated(st, sb, node, d, keep, is_root).0.disk,
                sb.block_size,
                c,
            ),
    ensures
        ({
            let (s, r) = extent_write::node_truncated(st, sb, node, d, keep, is_root);
            let (node2, empty) = r->Ok_0;
            let v = extent::tree_leaves(st.disk, sb.block_size, node, hops)->Ok_0;
            &&& node2.len() == node.len()
            &&& extent::tree_leaves(end, sb.block_size, node2, hops) == Ok::<
                Seq<ExtentLeaf>,
                ExtentError,
            >(w)
            &&& trimmed(v, w, keep)
            &&& tree::in_range(w, lo, hi)
            &&& given_back(s, sb, v, keep)
            &&& empty ==> w.len() == 0
            &&& cut_off(st, s, sb, node, d)
            &&& readable(s, sb)
        }),
    decreases d, 70000int, 0int,
{
    let bs = sb.block_size;
    let (s, r) = extent_write::node_truncated(st, sb, node, d, keep, is_root);
    let (node2, empty) = r->Ok_0;
    let h = extent::header(node);
    let n = h.eh_entries as int;
    let v = extent::tree_leaves(st.disk, bs, node, hops)->Ok_0;
    if d == 0 {
        let (mid, left) = extent_write::leaf_truncated(st, sb, node, 0, n, keep).1->Ok_0;
        let x = leaf_list(node, n);
        assert(x =~= extent::node_leaves(node));
        assert(x.skip(0) =~= x);
        lemma_leaf_trimmed(st, sb, node, 0, n, keep, lo, hi);
        extent_write::lemma_header(mid, left, h.eh_max, 0);
        let w = leaf_list(mid, left);
        assert(extent::node_leaves(node2) =~= w) by {
            assert forall|k: int| 0 <= k < left implies extent::node_leaves(node2)[k] == w[k] by {
                super::nodes::lemma_same_entry(
                    node2,
                    extent::entry_offset(k),
                    mid,
                    extent::entry_offset(k),
                );
            }
        }
        assert(w.skip(0) =~= w);
        w
    } else {
        let (mid, left) = extent_write::children_truncated(
            st,
            sb,
            node,
            0,
            n,
            d,
            keep,
        ).1->Ok_0;
        lemma_kids_of(st.disk, bs, node, d, lo, hi, hops);
        assert forall|c: u64| #[trigger] kids_hold(st.disk, bs, node, d, 0, n, c) implies
            !volume::is_group_block(st.gdt, sb, c) && block_device::block_at(end, bs, c)
            == block_device::block_at(s.disk, bs, c) by {
            assert(tree::within(st.disk, bs, node, d, c));
        }
        assert(tree::child_of(st.disk, bs, node, 0) is Ok);
        assert(extent::node_idxs(node)[0] == kid(node, 0));
        let w = lemma_kids_cut(st, sb, node, 0, n, d, lo, hi, keep, hops, end);
        extent_write::lemma_header(mid, left, h.eh_max, d as u16);
        assert forall|k: int| 0 <= k < left implies #[trigger] kid(node2, k) == kid(mid, k) by {
            super::nodes::lemma_same_entry(
                node2,
                extent::entry_offset(k),
                mid,
                extent::entry_offset(k),
            );
        }
        lemma_same_kids(end, bs, mid, node2, 0, left, hops);
        lemma_kid_leaves_all(end, bs, node2, left, hops);
        assert forall|c: u64| #![trigger block_device::block_at(s.disk, bs, c)]
            !volume::is_group_block(st.gdt, sb, c) && !tree::within(
                st.disk,
                bs,
                node,
                d,
                c,
            ) implies volume::untouched(st, s, bs, c) by {
            assert(!kids_hold(st.disk, bs, node, d, 0, n, c));
        }
        w
    }
}

/// Nodes with the same entries list the same.
proof fn lemma_same_kids(
    disk: Seq<u8>,
    bs: u32,
    a: Seq<u8>,
    b: Seq<u8>,
    i: int,
    n: int,
    hops: nat,
)
    requires
        0 <= i,
        forall|k: int| 0 <= k < n ==> #[trigger] kid(b, k) == kid(a, k),
    ensures
        kid_leaves(disk, bs, b, i, n, hops) == kid_leaves(disk, bs, a, i, n, hops),
    decreases n - i,
{
    if i < n {
        assert(kid(b, i) == kid(a, i));
        lemma_same_kids(disk, bs, a, b, i + 1, n, hops);
    }
}

/// Entries one place on list the same.
proof fn lemma_moved_kids(
    disk: Seq<u8>,
    bs: u32,
    node: Seq<u8>,
    d: nat,
    i: int,
    n: int,
    hi: int,
    hops: nat,
)
    requires
        0 <= i < n,
        extent::entry_offset(n) <= node.len(),
        kids_sound(disk, bs, node, d, i + 1, n, hi),
    ensures
        ({
            let node2 = extent_write::without_entry(node, i, n);
            &&& kids_sound(disk, bs, node2, d, i, n - 1, hi)
            &&& kid_leaves(disk, bs, node2, i, n - 1, hops) == kid_leaves(
                disk,
                bs,
                node,
                i + 1,
                n,
                hops,
            )
            &&& forall|c: u64| #[trigger]
                kids_hold(disk, bs, node2, d, i, n - 1, c) == kids_hold(
                    disk,
                    bs,
                    node,
                    d,
                    i + 1,
                    n,
                    c,
                )
        }),
{
    let node2 = extent_write::without_entry(node, i, n);
    lemma_without_entry(node, i, n);
    assert forall|k: int| i <= k < n - 1 implies #[trigger] kid_sound(
        disk,
        bs,
        node2,
        d,
        k,
        n - 1,
        hi,
    ) by {
        assert(kid(node2, k) == kid(node, k + 1));
        if k + 1 < n - 1 {
            assert(kid(node2, k + 1) == kid(node, k + 2));
        }
        assert(kid_sound(disk, bs, node, d, k + 1, n, hi));
    }
    lemma_moved_leaves(disk, bs, node, node2, i, i, n, hops);
    assert forall|c: u64| #[trigger] kids_hold(disk, bs, node2, d, i, n - 1, c) == kids_hold(
        disk,
        bs,
        node,
        d,
        i + 1,
        n,
        c,
    ) by {
        if kids_hold(disk, bs, node2, d, i, n - 1, c) {
            let k = choose|k: int| i <= k < n - 1 && #[trigger] kid_holds(disk, bs, node2, d, k, c);
            assert(kid(node2, k) == kid(node, k + 1));
            assert(kid_holds(disk, bs, node, d, k + 1, c));
        }
        if kids_hold(disk, bs, node, d, i + 1, n, c) {
            let k = choose|k: int| i + 1 <= k < n && #[trigger] kid_holds(disk, bs, node, d, k, c);
            assert(kid(node2, k - 1) == kid(node, k));
            assert(kid_holds(disk, bs, node2, d, k - 1, c));
        }
    }
}

proof fn lemma_moved_leaves(
    disk: Seq<u8>,
    bs: u32,
    a: Seq<u8>,
    b: Seq<u8>,
    i: int,
    j: int,
    n: int,
    hops: nat,
)
    requires
        i <= j,
        forall|k: int| i <= k < n - 1 ==> #[trigger] kid(b, k) == kid(a, k + 1),
    ensures
        kid_leaves(disk, bs, b, j, n - 1, hops) == kid_leaves(disk, bs, a, j + 1, n, hops),
    decreases n - j,
{
    if j < n - 1 {
        assert(kid(b, j) == kid(a, j + 1));
        lemma_moved_leaves(disk, bs, a, b, i, j + 1, n, hops);
    }
}

/// Cutting the subtrees from entry `i` to `n`.
#[verifier::rlimit(100)]
proof fn lemma_kids_cut(
    st: FsState,
    sb: Superblock,
    node: Seq<u8>,
    i: int,
    n: int,
    d: nat,
    lo: int,
    hi: int,
    keep: u32,
    hops: nat,
    end: Seq<u8>,
) -> (w: Seq<ExtentLeaf>)
    requires
        readable(st, sb),
        0 <= i <= n <= u16::MAX,
        lo <= hi <= u32::MAX,
        i < n ==> lo <= kid(node, i).ei_block,
        0 < d <= hops,
        extent::entry_offset(n) <= node.len(),
        kids_sound(st.disk, sb.block_size, node, d, i, n, hi),
        forall|c: u64| #[trigger]
            kids_hold(st.disk, sb.block_size, node, d, i, n, c) ==> !volume::is_group_block(
                st.gdt,
                sb,
                c,
            ),
        extent_write::children_truncated(st, sb, node, i, n, d, keep).1 is Ok,
        forall|c: u64| #[trigger]
            kids_hold(st.disk, sb.block_size, node, d, i, n, c) ==> block_device::block_at(
                end,
                sb.block_size,
                c,
            ) == block_device::block_at(
                extent_write::children_truncated(st, sb, node, i, n, d, keep).0.disk,
                sb.block_size,
                c,
            ),
    ensures
        ({
            let (s, r) = extent_write::children_truncated(st, sb, node, i, n, d, keep);
            let (node2, left) = r->Ok_0;
            let v = kid_leaves(st.disk, sb.block_size, node, i, n, hops)->Ok_0;
            &&& node2.len() == node.len()
            &&& i <= left <= n
            &&& forall|k: int| 0 <= k < i ==> #[trigger] kid(node2, k) == kid(node, k)
            &&& kid_leaves(end, sb.block_size, node2, i, left, hops) == Ok::<
                Seq<ExtentLeaf>,
                ExtentError,
            >(w)
            &&& trimmed(v, w, keep)
            &&& tree::in_range(w, lo, hi)
            &&& given_back(s, sb, v, keep)
            &&& kids_cut_off(st, s, sb, node, d, i, n)
            &&& readable(s, sb)
        }),
    decreases d, n - i, 1int,
{
    let bs = sb.block_size;
    let none = Seq::<ExtentLeaf>::empty();
    let (s, r) = extent_write::children_truncated(st, sb, node, i, n, d, keep);
    let (node2, left) = r->Ok_0;
    lemma_kids_listed(st.disk, bs, node, d, i, n, hi, hops);
    if i == n {
        none
    } else {
        let at = kid(node, i).child();
        let x = kid_node(st.disk, bs, node, i)->Ok_0;
        let key = kid(node, i).ei_block as int;
        let to = stop(node, i, n, hi);
        assert(kid_sound(st.disk, bs, node, d, i, n, hi));
        let a = extent::tree_leaves(st.disk, bs, x, (hops - 1) as nat)->Ok_0;
        let b = kid_leaves(st.disk, bs, node, i + 1, n, hops)->Ok_0;
        assert forall|c: u64| #[trigger] tree::within(st.disk, bs, x, (d - 1) as nat, c) implies
            !volume::is_group_block(st.gdt, sb, c) by {
            assert(kid_holds(st.disk, bs, node, d, i, c));
            assert(kids_hold(st.disk, bs, node, d, i, n, c));
        }
        assert(kids_sound(st.disk, bs, node, d, i + 1, n, hi));
        tree::law_listed(st.disk, bs, x, (d - 1) as nat, key, to, (hops - 1) as nat);
        if key >= keep && keep > 0 {
            // The whole subtree goes.
            let s1 = extent_write::subtree_freed(st, sb, at, (d - 1) as nat).0;
            lemma_subtree_freed(st, sb, at, (d - 1) as nat, key, to, (hops - 1) as nat);
            let w = lemma_rest_cut(st, s1, sb, node, i, n, d, hi, keep, hops, end, false);
            lemma_wider_range(w, to, lo, hi);
            assert(trimmed(a, none, keep)) by {
                assert forall|l: u64| #[trigger]
                    extent::mapped(none, l) == (if l < keep {
                        extent::mapped(a, l)
                    } else {
                        None
                    }) by {
                    if l < keep {
                        assert forall|j: int| 0 <= j < a.len() implies !(#[trigger] a[j]).covers(
                            l,
                        ) by {}
                        tree::lemma_mapped_none(a, l);
                    }
                }
            }
            lemma_trimmed_joined(a, b, none, w, keep);
            assert(none + w =~= w);
            assert(given_back(s, sb, a, keep)) by {
                assert forall|l: u64| l >= keep && (#[trigger] extent::mapped(a, l)) is Some implies
                    !volume::used(s, sb, extent::mapped(a, l)->Some_0) by {
                    assert(!volume::used(s1, sb, extent::mapped(a, l)->Some_0));
                }
            }
            lemma_given_back_joined(s, sb, a, b, keep);
            w
        } else {
            let (s1, r1) = extent_write::node_truncated(
                st,
                sb,
                x,
                (d - 1) as nat,
                keep,
                false,
            );
            let (x2, empty) = r1->Ok_0;
            if empty {
                let s2 = extent_write::block_freed(s1, sb, at).0;
                let u = lemma_kid_cut(st, s1, s1.disk, sb, node, i, n, d, hi, keep, hops);
                lemma_block_freed(s1, sb, at);
                lemma_cut_then_gave(st, s1, s2, sb, node, d, i);
                let w = lemma_rest_cut(st, s2, sb, node, i, n, d, hi, keep, hops, end, false);
                lemma_wider_range(w, to, lo, hi);
                assert(u =~= none);
                lemma_trimmed_joined(a, b, none, w, keep);
                assert(none + w =~= w);
                lemma_given_back_later(s1, s2, sb, a, keep);
                lemma_given_back_later(s2, s, sb, a, keep);
                lemma_given_back_joined(s, sb, a, b, keep);
                w
            } else {
                let s2 = extent_write::wrote(s1, sb, at, x2).0;
                let u0 = lemma_kid_cut(st, s1, s1.disk, sb, node, i, n, d, hi, keep, hops);
                assert(kid_holds(st.disk, bs, node, d, i, at));
                assert(kids_hold(st.disk, bs, node, d, i, n, at));
                lemma_kid_rewritten(st, s1, sb, node, d, i, x2);
                let w = lemma_rest_cut(st, s2, sb, node, i, n, d, hi, keep, hops, end, true);
                lemma_kid_final(st, s1, s2, s, sb, node, d, i, n, hi, x2, end);
                let u = lemma_kid_cut(st, s1, end, sb, node, i, n, d, hi, keep, hops);
                assert(kid(node2, i) == kid(node, i));
                assert(kid_node(end, bs, node2, i) == Ok::<Seq<u8>, BlockDeviceError>(x2));
                lemma_trimmed_joined(a, b, u, w, keep);
                lemma_wider_range(u, key, lo, to);
                tree::lemma_in_range_joined(u, w, lo, to, to, hi);
                lemma_given_back_later(s1, s2, sb, a, keep);
                lemma_given_back_later(s2, s, sb, a, keep);
                lemma_given_back_joined(s, sb, a, b, keep);
                u + w
            }
        }
    }
}

/// Whether `s` is `st` with nothing but the groups' blocks and the nodes under
/// entry `i` changed.
pub open spec fn kid_cut_off(
    st: FsState,
    s: FsState,
    sb: Superblock,
    node: Seq<u8>,
    d: nat,
    i: int,
) -> bool {
    &&& emptier(st, s, sb)
    &&& forall|c: u64| #![trigger block_device::block_at(s.disk, sb.block_size, c)]
        !volume::is_group_block(st.gdt, sb, c) && !kid_holds(
            st.disk,
            sb.block_size,
            node,
            d,
            i,
            c,
        ) ==> volume::untouched(st, s, sb.block_size, c)
}

proof fn lemma_cut_then_gave(
    st: FsState,
    s1: FsState,
    s2: FsState,
    sb: Superblock,
    node: Seq<u8>,
    d: nat,
    i: int,
)
    requires
        cut_off(st, s1, sb, kid_node(st.disk, sb.block_size, node, i)->Ok_0, (d - 1) as nat),
        gave_back(s1, s2, sb),
    ensures
        kid_cut_off(st, s2, sb, node, d, i),
{
    let bs = sb.block_size;
    lemma_emptier(st, s1, s2, sb);
    assert forall|c: u64| #![trigger block_device::block_at(s2.disk, bs, c)]
        !volume::is_group_block(st.gdt, sb, c) && !kid_holds(st.disk, bs, node, d, i, c) implies
        volume::untouched(st, s2, bs, c) by {
        lemma_same_groups(st, s1, sb, c);
        assert(block_device::block_at(s1.disk, bs, c) == block_device::block_at(st.disk, bs, c));
    }
}

/// Writing a block through that is no group's.
proof fn lemma_wrote(st: FsState, sb: Superblock, b: u64, data: Seq<u8>)
    requires
        readable(st, sb),
        data.len() == sb.block_size,
        !volume::is_group_block(st.gdt, sb, b),
        extent_write::wrote(st, sb, b, data).1 is Ok,
    ensures
        ({
            let s = extent_write::wrote(st, sb, b, data).0;
            &&& readable(s, sb)
            &&& emptier(st, s, sb)
            &&& s.gdt == st.gdt
            &&& block_device::block_at(s.disk, sb.block_size, b) == Ok::<
                Seq<u8>,
                BlockDeviceError,
            >(data)
            &&& forall|c: u64| #![trigger block_device::block_at(s.disk, sb.block_size, c)]
                c != b ==> volume::untouched(st, s, sb.block_size, c)
        }),
{
    let bs = sb.block_size;
    let s = extent_write::wrote(st, sb, b, data).0;
    assert forall|c: u64| #![trigger block_device::block_at(s.disk, bs, c)]
        c != b implies volume::untouched(st, s, bs, c) by {
        block_device::lemma_block_write_read(st.disk, bs, b, data, c);
        writer::lemma_pin(st.txn.blocks, b, data, c);
    }
    block_device::lemma_block_write_read(st.disk, bs, b, data, b);
    assert forall|c: u64| #[trigger] volume::used(s, sb, c) implies volume::used(st, sb, c) by {
        reveal(volume::used);
        reveal(volume::is_group_block);
        let g = block_alloc::group_of(sb, c);
        vstd::arithmetic::div_mod::lemma_div_pos_is_pos(
            c - sb.first_data_block,
            sb.blocks_per_group as int,
        );
        assert(!volume::is_of_group(st.gdt, sb, g, b));
        assert(block_device::block_at(s.disk, bs, st.gdt[g].block_bitmap)
            == block_device::block_at(st.disk, bs, st.gdt[g].block_bitmap));
    }
}

proof fn lemma_kid_rewritten(
    st: FsState,
    s1: FsState,
    sb: Superblock,
    node: Seq<u8>,
    d: nat,
    i: int,
    x2: Seq<u8>,
)
    requires
        readable(s1, sb),
        cut_off(st, s1, sb, kid_node(st.disk, sb.block_size, node, i)->Ok_0, (d - 1) as nat),
        !volume::is_group_block(st.gdt, sb, kid(node, i).child()),
        x2.len() == sb.block_size,
        extent_write::wrote(s1, sb, kid(node, i).child(), x2).1 is Ok,
    ensures
        kid_cut_off(
            st,
            extent_write::wrote(s1, sb, kid(node, i).child(), x2).0,
            sb,
            node,
            d,
            i,
        ),
        emptier(s1, extent_write::wrote(s1, sb, kid(node, i).child(), x2).0, sb),
        block_device::block_at(
            extent_write::wrote(s1, sb, kid(node, i).child(), x2).0.disk,
            sb.block_size,
            kid(node, i).child(),
        ) == Ok::<Seq<u8>, BlockDeviceError>(x2),
        forall|c: u64|
            #![trigger block_device::block_at(
                extent_write::wrote(s1, sb, kid(node, i).child(), x2).0.disk,
                sb.block_size,
                c,
            )]
            c != kid(node, i).child() ==> volume::untouched(
                s1,
                extent_write::wrote(s1, sb, kid(node, i).child(), x2).0,
                sb.block_size,
                c,
            ),
{
    let bs = sb.block_size;
    let at = kid(node, i).child();
    let s2 = extent_write::wrote(s1, sb, at, x2).0;
    lemma_same_groups(st, s1, sb, at);
    lemma_wrote(s1, sb, at, x2);
    lemma_emptier(st, s1, s2, sb);
    assert forall|c: u64| #![trigger block_device::block_at(s2.disk, bs, c)]
        !volume::is_group_block(st.gdt, sb, c) && !kid_holds(st.disk, bs, node, d, i, c) implies
        volume::untouched(st, s2, bs, c) by {
        assert(c != at);
        assert(block_device::block_at(s1.disk, bs, c) == block_device::block_at(st.disk, bs, c));
    }
}

/// Cutting the subtree under entry `i`.
proof fn lemma_kid_cut(
    st: FsState,
    s1: FsState,
    end: Seq<u8>,
    sb: Superblock,
    node: Seq<u8>,
    i: int,
    n: int,
    d: nat,
    hi: int,
    keep: u32,
    hops: nat,
) -> (u: Seq<ExtentLeaf>)
    requires
        readable(st, sb),
        i < n,
        hi <= u32::MAX,
        0 < d <= hops,
        kid_sound(st.disk, sb.block_size, node, d, i, n, hi),
        forall|c: u64| #[trigger]
            tree::within(
                st.disk,
                sb.block_size,
                kid_node(st.disk, sb.block_size, node, i)->Ok_0,
                (d - 1) as nat,
                c,
            ) ==> !volume::is_group_block(st.gdt, sb, c),
        extent_write::node_truncated(
            st,
            sb,
            kid_node(st.disk, sb.block_size, node, i)->Ok_0,
            (d - 1) as nat,
            keep,
            false,
        ).1 is Ok,
        s1 == extent_write::node_truncated(
            st,
            sb,
            kid_node(st.disk, sb.block_size, node, i)->Ok_0,
            (d - 1) as nat,
            keep,
            false,
        ).0,
        forall|c: u64| #[trigger]
            tree::within(
                st.disk,
                sb.block_size,
                kid_node(st.disk, sb.block_size, node, i)->Ok_0,
                (d - 1) as nat,
                c,
            ) ==> block_device::block_at(end, sb.block_size, c) == block_device::block_at(
                s1.disk,
                sb.block_size,
                c,
            ),
    ensures
        ({
            let x = kid_node(st.disk, sb.block_size, node, i)->Ok_0;
            let (x2, empty) = extent_write::node_truncated(
                st,
                sb,
                x,
                (d - 1) as nat,
                keep,
                false,
            ).1->Ok_0;
            let a = extent::tree_leaves(st.disk, sb.block_size, x, (hops - 1) as nat)->Ok_0;
            &&& x2.len() == sb.block_size
            &&& extent::tree_leaves(end, sb.block_size, x2, (hops - 1) as nat) == Ok::<
                Seq<ExtentLeaf>,
                ExtentError,
            >(u)
            &&& trimmed(a, u, keep)
            &&& tree::in_range(u, kid(node, i).ei_block as int, stop(node, i, n, hi))
            &&& given_back(s1, sb, a, keep)
            &&& empty ==> u.len() == 0
            &&& cut_off(st, s1, sb, x, (d - 1) as nat)
            &&& readable(s1, sb)
        }),
    decreases d, n - i, 0int,
{
    let bs = sb.block_size;
    let x = kid_node(st.disk, bs, node, i)->Ok_0;
    block_device::lemma_block_at(st.disk, bs, kid(node, i).child());
    lemma_node_cut(
        st,
        sb,
        x,
        (d - 1) as nat,
        kid(node, i).ei_block as int,
        stop(node, i, n, hi),
        keep,
        false,
        (hops - 1) as nat,
        end,
    )
}

/// Cutting the subtrees behind entry `i`, which stays or goes.
#[verifier::rlimit(100)]
proof fn lemma_rest_cut(
    st: FsState,
    s2: FsState,
    sb: Superblock,
    node: Seq<u8>,
    i: int,
    n: int,
    d: nat,
    hi: int,
    keep: u32,
    hops: nat,
    end: Seq<u8>,
    stays: bool,
) -> (w: Seq<ExtentLeaf>)
    requires
        readable(st, sb),
        0 <= i < n <= u16::MAX,
        hi <= u32::MAX,
        0 < d <= hops,
        extent::entry_offset(n) <= node.len(),
        kids_sound(st.disk, sb.block_size, node, d, i, n, hi),
        forall|c: u64| #[trigger]
            kids_hold(st.disk, sb.block_size, node, d, i, n, c) ==> !volume::is_group_block(
                st.gdt,
                sb,
                c,
            ),
        kid_cut_off(st, s2, sb, node, d, i),
        rest_of(s2, sb, node, i, n, d, keep, stays).1 is Ok,
        forall|c: u64| #[trigger]
            kids_hold(st.disk, sb.block_size, node, d, i, n, c) ==> block_device::block_at(
                end,
                sb.block_size,
                c,
            ) == block_device::block_at(
                rest_of(s2, sb, node, i, n, d, keep, stays).0.disk,
                sb.block_size,
                c,
            ),
    ensures
        ({
            let (s, r) = rest_of(s2, sb, node, i, n, d, keep, stays);
            let (node2, left) = r->Ok_0;
            let from = if stays {
                i + 1
            } else {
                i
            };
            let b = kid_leaves(st.disk, sb.block_size, node, i + 1, n, hops)->Ok_0;
            &&& node2.len() == node.len()
            &&& from <= left <= n
            &&& forall|k: int| 0 <= k < from ==> #[trigger] kid(node2, k) == kid(node, k)
            &&& kid_leaves(end, sb.block_size, node2, from, left, hops) == Ok::<
                Seq<ExtentLeaf>,
                ExtentError,
            >(w)
            &&& trimmed(b, w, keep)
            &&& tree::in_range(w, stop(node, i, n, hi), hi)
            &&& given_back(s, sb, b, keep)
            &&& emptier(s2, s, sb)
            &&& kids_cut_off(st, s, sb, node, d, i, n)
            &&& readable(s, sb)
            &&& forall|c: u64| #![trigger block_device::block_at(s.disk, sb.block_size, c)]
                !volume::is_group_block(st.gdt, sb, c) && !kids_hold(
                    st.disk,
                    sb.block_size,
                    node,
                    d,
                    i + 1,
                    n,
                    c,
                ) ==> volume::untouched(s2, s, sb.block_size, c)
        }),
    decreases d, n - i, 0int,
{
    let bs = sb.block_size;
    let (s, r) = rest_of(s2, sb, node, i, n, d, keep, stays);
    let to = stop(node, i, n, hi);
    assert(kid_sound(st.disk, bs, node, d, i, n, hi));
    assert(kids_sound(st.disk, bs, node, d, i + 1, n, hi)) by {
        assert forall|k: int| i + 1 <= k < n implies #[trigger] kid_sound(
            st.disk,
            bs,
            node,
            d,
            k,
            n,
            hi,
        ) by {}
    }
    assert forall|c: u64| #[trigger] kids_hold(st.disk, bs, node, d, i + 1, n, c) implies {
        &&& !volume::is_group_block(st.gdt, sb, c)
        &&& kids_hold(st.disk, bs, node, d, i, n, c)
        &&& block_device::block_at(s2.disk, bs, c) == block_device::block_at(st.disk, bs, c)
    } by {
        let k = choose|k: int| i + 1 <= k < n && #[trigger] kid_holds(st.disk, bs, node, d, k, c);
        assert(kid_holds(st.disk, bs, node, d, k, c));
        assert(kids_hold(st.disk, bs, node, d, i, n, c));
        lemma_kids_apart(st.disk, bs, node, d, i, k, n, hi, c);
    }
    lemma_kids_kept(st.disk, s2.disk, bs, node, d, i + 1, n, hi, hops);
    assert forall|c: u64| #[trigger] kids_hold(s2.disk, bs, node, d, i + 1, n, c) == kids_hold(
        st.disk,
        bs,
        node,
        d,
        i + 1,
        n,
        c,
    ) by {
        if kids_hold(s2.disk, bs, node, d, i + 1, n, c) {
            let k = choose|k: int|
                i + 1 <= k < n && #[trigger] kid_holds(s2.disk, bs, node, d, k, c);
            assert(kid_holds(st.disk, bs, node, d, k, c));
        }
        if kids_hold(st.disk, bs, node, d, i + 1, n, c) {
            let k = choose|k: int|
                i + 1 <= k < n && #[trigger] kid_holds(st.disk, bs, node, d, k, c);
            assert(kid_holds(s2.disk, bs, node, d, k, c));
        }
    }
    assert forall|c: u64| volume::is_group_block(st.gdt, sb, c) == #[trigger]
        volume::is_group_block(s2.gdt, sb, c) by {
        lemma_same_groups(st, s2, sb, c);
    }
    let w = if stays {
        lemma_kids_cut(s2, sb, node, i + 1, n, d, to, hi, keep, hops, end)
    } else {
        let next = extent_write::without_entry(node, i, n);
        lemma_without_entry(node, i, n);
        lemma_moved_kids(s2.disk, bs, node, d, i, n, hi, hops);
        assert(i < n - 1 ==> kid(next, i) == kid(node, i + 1));
        lemma_kids_cut(s2, sb, next, i, n - 1, d, to, hi, keep, hops, end)
    };
    lemma_emptier(st, s2, s, sb);
    assert forall|c: u64| #![trigger block_device::block_at(s.disk, bs, c)]
        !volume::is_group_block(st.gdt, sb, c) && !kids_hold(
            st.disk,
            bs,
            node,
            d,
            i + 1,
            n,
            c,
        ) implies volume::untouched(s2, s, bs, c) by {
        assert(!kids_hold(s2.disk, bs, node, d, i + 1, n, c));
    }
    assert forall|c: u64| #![trigger block_device::block_at(s.disk, bs, c)]
        !volume::is_group_block(st.gdt, sb, c) && !kids_hold(
            st.disk,
            bs,
            node,
            d,
            i,
            n,
            c,
        ) implies volume::untouched(st, s, bs, c) by {
        assert(!kid_holds(st.disk, bs, node, d, i, c));
        if kids_hold(st.disk, bs, node, d, i + 1, n, c) {
            assert(kids_hold(st.disk, bs, node, d, i, n, c));
        }
        assert(block_device::block_at(s2.disk, bs, c) == block_device::block_at(st.disk, bs, c));
    }
    w
}

/// What is left to do behind entry `i`.
pub open spec fn rest_of(
    s2: FsState,
    sb: Superblock,
    node: Seq<u8>,
    i: int,
    n: int,
    d: nat,
    keep: u32,
    stays: bool,
) -> (FsState, Result<(Seq<u8>, int), ExtentWriteError>) {
    if stays {
        extent_write::children_truncated(s2, sb, node, i + 1, n, d, keep)
    } else {
        extent_write::children_truncated(
            s2,
            sb,
            extent_write::without_entry(node, i, n),
            i,
            n - 1,
            d,
            keep,
        )
    }
}

/// In the end the subtree under entry `i` is as it was cut.
#[verifier::rlimit(100)]
proof fn lemma_kid_final(
    st: FsState,
    s1: FsState,
    s2: FsState,
    s: FsState,
    sb: Superblock,
    node: Seq<u8>,
    d: nat,
    i: int,
    n: int,
    hi: int,
    x2: Seq<u8>,
    end: Seq<u8>,
)
    requires
        0 <= i < n,
        0 < d,
        kids_sound(st.disk, sb.block_size, node, d, i, n, hi),
        forall|c: u64| #[trigger]
            kids_hold(st.disk, sb.block_size, node, d, i, n, c) ==> !volume::is_group_block(
                st.gdt,
                sb,
                c,
            ),
        forall|c: u64| #[trigger]
            kids_hold(st.disk, sb.block_size, node, d, i, n, c) ==> block_device::block_at(
                end,
                sb.block_size,
                c,
            ) == block_device::block_at(s.disk, sb.block_size, c),
        forall|c: u64| #![trigger block_device::block_at(s.disk, sb.block_size, c)]
            !volume::is_group_block(st.gdt, sb, c) && !kids_hold(
                st.disk,
                sb.block_size,
                node,
                d,
                i + 1,
                n,
                c,
            ) ==> volume::untouched(s2, s, sb.block_size, c),
        block_device::block_at(s2.disk, sb.block_size, kid(node, i).child()) == Ok::<
            Seq<u8>,
            BlockDeviceError,
        >(x2),
        forall|c: u64| #![trigger block_device::block_at(s2.disk, sb.block_size, c)]
            c != kid(node, i).child() ==> volume::untouched(s1, s2, sb.block_size, c),
    ensures
        block_device::block_at(end, sb.block_size, kid(node, i).child()) == Ok::<
            Seq<u8>,
            BlockDeviceError,
        >(x2),
        forall|c: u64| #[trigger]
            tree::within(
                st.disk,
                sb.block_size,
                kid_node(st.disk, sb.block_size, node, i)->Ok_0,
                (d - 1) as nat,
                c,
            ) ==> block_device::block_at(end, sb.block_size, c) == block_device::block_at(
                s1.disk,
                sb.block_size,
                c,
            ),
{
    let bs = sb.block_size;
    let at = kid(node, i).child();
    let x = kid_node(st.disk, bs, node, i)->Ok_0;
    assert forall|c: u64| #[trigger] kid_holds(st.disk, bs, node, d, i, c) implies {
        &&& kids_hold(st.disk, bs, node, d, i, n, c)
        &&& block_device::block_at(end, bs, c) == block_device::block_at(s2.disk, bs, c)
    } by {
        assert(kids_hold(st.disk, bs, node, d, i, n, c));
        assert(!kids_hold(st.disk, bs, node, d, i + 1, n, c)) by {
            if kids_hold(st.disk, bs, node, d, i + 1, n, c) {
                let k = choose|k: int|
                    i + 1 <= k < n && #[trigger] kid_holds(st.disk, bs, node, d, k, c);
                lemma_kids_apart(st.disk, bs, node, d, i, k, n, hi, c);
            }
        }
        assert(block_device::block_at(s.disk, bs, c) == block_device::block_at(s2.disk, bs, c));
    }
    assert(kid_holds(st.disk, bs, node, d, i, at));
    assert(kid_sound(st.disk, bs, node, d, i, n, hi));
    assert forall|c: u64| #[trigger] tree::within(st.disk, bs, x, (d - 1) as nat, c) implies
        block_device::block_at(end, bs, c) == block_device::block_at(s1.disk, bs, c) by {
        assert(kid_holds(st.disk, bs, node, d, i, c));
        let r = tree::lemma_node_of(
            st.disk,
            bs,
            x,
            (d - 1) as nat,
            kid(node, i).ei_block as int,
            stop(node, i, n, hi),
            c,
        );
        assert(extent::header(block_device::block_at(st.disk, bs, c)->Ok_0).eh_depth == r.0);
        assert(c != at);
    }
}

/// Cutting a sound file short at logical block `keep` keeps what lies before
/// that, byte for byte, reads as a hole from there on, and gives back the blocks
/// that held it. Where no entry is left, as when all is cut off, the root is a leaf, and
/// the tree is sound.
///
/// A file that reaches the last logical block there can be is left out: the end
/// of its last extent is taken to be a block too early.
#[verifier::rlimit(100)]
pub proof fn law_truncated(st: FsState, sb: Superblock, num: u32, d: nat, keep: u32)
    requires
        volume::sound_file(st, sb, num, d),
        tree::end_of(volume::extents_now(st, sb, num)) <= u32::MAX,
        extent_write::truncated(st, sb, num, keep).1 is Ok,
    ensures
        ({
            let s = extent_write::truncated(st, sb, num, keep).0;
            let v = volume::extents_now(st, sb, num);
            let w = volume::extents_now(s, sb, num);
            &&& inode::inode_at(s.disk, sb, s.gdt, num) is Ok
            &&& volume::inode_now(s, sb, num) == (InodeView {
                block_data: volume::inode_now(s, sb, num).block_data,
                ..volume::inode_now(st, sb, num)
            })
            &&& extent::file_leaves(
                s.disk,
                sb,
                true,
                volume::inode_now(s, sb, num).block_data,
            ) is Ok
            &&& trimmed(v, w, keep)
            &&& given_back(s, sb, v, keep)
            &&& keep == 0 ==> extent::header(
                volume::inode_now(s, sb, num).block_data,
            ).eh_entries == 0
            &&& extent::header(volume::inode_now(s, sb, num).block_data).eh_entries == 0
                ==> tree::sound(
                s.disk,
                sb.block_size,
                volume::inode_now(s, sb, num).block_data,
                0,
                0,
                tree::LOGICAL_END as int,
            )
            &&& forall|o: int|
                0 <= o <= u64::MAX ==> #[trigger] file::file_byte(
                    s.disk,
                    sb.block_size,
                    extent::in_order(w),
                    o,
                ) == (if o / (sb.block_size as int) < keep {
                    file::file_byte(st.disk, sb.block_size, extent::in_order(v), o)
                } else {
                    0
                })
        }),
{
    let bs = sb.block_size;
    let v = volume::extents_now(st, sb, num);
    let end = tree::end_of(v);
    let s = extent_write::truncated(st, sb, num, keep).0;
    let w = lemma_truncated_on(st, sb, num, d, keep, s.disk);
    volume::lemma_extents(st, sb, num, d);
    tree::law_resolved_as_mapped(v, 0, tree::LOGICAL_END as int, 0);
    tree::law_resolved_as_mapped(w, 0, end, 0);
    assert forall|o: int| 0 <= o <= u64::MAX implies #[trigger] file::file_byte(
        s.disk,
        bs,
        w,
        o,
    ) == (if o / (bs as int) < keep {
        file::file_byte(st.disk, bs, v, o)
    } else {
        0
    }) by {
        let l = o / (bs as int);
        vstd::arithmetic::div_mod::lemma_div_pos_is_pos(o, bs as int);
        vstd::arithmetic::div_mod::lemma_mod_bound(o, bs as int);
        assert(l <= u64::MAX) by {
            vstd::arithmetic::div_mod::lemma_div_is_ordered_by_denominator(o, 1, bs as int);
        }
        tree::law_resolved_as_mapped(v, 0, tree::LOGICAL_END as int, l as u64);
        tree::law_resolved_as_mapped(w, 0, end, l as u64);
        if l < keep && extent::mapped(v, l as u64) is Some {
            let b = extent::mapped(v, l as u64)->Some_0;
            assert(volume::kept_apart(st, sb, num, b));
            assert(!volume::node_block(st, sb, num, d, b));
            assert(block_device::block_at(s.disk, bs, b) == block_device::block_at(
                st.disk,
                bs,
                b,
            ));
        }
    }
}

/// Whether one of the leaf entries `i` to `n` of a node leads to block `c`, be it
/// written or not.
pub open spec fn leaf_leads(node: Seq<u8>, i: int, n: int, c: u64) -> bool {
    exists|k: int|
        i <= k < n && {
            let leaf = #[trigger] extent::leaf_at(node, extent::entry_offset(k));
            leaf.phys() <= c < leaf.phys() + leaf.blocks()
        }
}

/// Whether the tree under `node`, which is `d` levels deep, leads to block `c`: as a
/// node, or as a block of the file.
pub open spec fn leads_to(disk: Seq<u8>, bs: u32, node: Seq<u8>, d: nat, c: u64) -> bool
    decreases d, 70000int,
{
    if d == 0 {
        leaf_leads(node, 0, extent::header(node).eh_entries as int, c)
    } else {
        kids_lead(disk, bs, node, d, 0, extent::header(node).eh_entries as int, c)
    }
}

/// The same of the subtrees from entry `i` to `n`.
pub open spec fn kids_lead(
    disk: Seq<u8>,
    bs: u32,
    node: Seq<u8>,
    d: nat,
    i: int,
    n: int,
    c: u64,
) -> bool
    decreases d, n - i,
{
    d > 0 && i < n && {
        let b = extent::idx_at(node, extent::entry_offset(i)).child();
        let x = block_device::block_at(disk, bs, b);
        ||| b == c
        ||| x is Ok && leads_to(disk, bs, x->Ok_0, (d - 1) as nat, c)
        ||| kids_lead(disk, bs, node, d, i + 1, n, c)
    }
}

/// Whether each group has a bitmap of its own.
pub open spec fn own_maps(gdt: Seq<crate::group_desc::GroupDesc>) -> bool {
    forall|g: int, h: int| #![trigger gdt[g], gdt[h]]
        0 <= g < h < gdt.len() ==> gdt[g].block_bitmap != gdt[h].block_bitmap
}

pub proof fn lemma_own_maps(a: FsState, b: FsState)
    requires
        own_maps(a.gdt),
        volume::same_layout(a.gdt, b.gdt),
    ensures
        own_maps(b.gdt),
{
    assert forall|g: int, h: int| #![trigger b.gdt[g], b.gdt[h]]
        0 <= g < h < b.gdt.len() implies b.gdt[g].block_bitmap != b.gdt[h].block_bitmap by {
        assert(a.gdt[g].block_bitmap == b.gdt[g].block_bitmap);
        assert(a.gdt[h].block_bitmap == b.gdt[h].block_bitmap);
    }
}

/// Freeing a block leaves every other block marked as it was.
pub proof fn lemma_others_marked(st: FsState, sb: Superblock, b: u64, c: u64)
    requires
        readable(st, sb),
        own_maps(st.gdt),
        extent_write::block_freed(st, sb, b).1 is Ok,
        c != b,
        volume::used(st, sb, c),
    ensures
        volume::used(extent_write::block_freed(st, sb, b).0, sb, c),
{
    let bs = sb.block_size;
    let n = sb.blocks_per_group as int;
    let g = block_alloc::group_of(sb, b);
    let k = block_alloc::bit_of(sb, b);
    let h = block_alloc::group_of(sb, c);
    let j = block_alloc::bit_of(sb, c);
    reveal(volume::used);
    vstd::arithmetic::div_mod::lemma_div_pos_is_pos(b - sb.first_data_block, n);
    vstd::arithmetic::div_mod::lemma_mod_bound(b - sb.first_data_block, n);
    vstd::arithmetic::div_mod::lemma_div_pos_is_pos(c - sb.first_data_block, n);
    vstd::arithmetic::div_mod::lemma_mod_bound(c - sb.first_data_block, n);
    vstd::arithmetic::div_mod::lemma_fundamental_div_mod(b - sb.first_data_block, n);
    vstd::arithmetic::div_mod::lemma_fundamental_div_mod(c - sb.first_data_block, n);
    let bm = block_bitmap::loaded(st.disk, sb, st.gdt, g)->Ok_0;
    let at = st.gdt[g].block_bitmap;
    let data = bits::without_bit(bm, k);
    block_device::lemma_block_at(st.disk, bs, at);
    let s1 = fs_state::store(st, bs, at, data).0;
    let s2 = fs_state::revoke(s1, b);
    let gdt = crate::group_desc::with_free_blocks(s2.gdt, g, 1);
    let x = block_alloc::tallied(FsState { gdt, ..s2 }, sb, g, 0).0;
    crate::allocator::laws::lemma_tallied(FsState { gdt, ..s2 }, sb, g, 0);
    let s = extent_write::block_freed(st, sb, b).0;
    assert(s == fs_state::revoke(x, b));
    let y = st.gdt[h].block_bitmap;
    assert(s.gdt[h].block_bitmap == y);
    block_device::lemma_block_write_read(st.disk, bs, at, data, y);
    block_device::lemma_block_at(st.disk, bs, y);
    assert(block_alloc::gdt_block(sb, g) != st.gdt[h].block_bitmap);
    if h == g {
        bits::lemma_bit(bm, k, j);
    }
}

pub proof fn lemma_run_marked(st: FsState, sb: Superblock, start: u64, n: int, c: u64)
    requires
        readable(st, sb),
        own_maps(st.gdt),
        start + n <= u64::MAX,
        extent_write::run_freed(st, sb, start, n).1 is Ok,
        !(start <= c < start + n),
        volume::used(st, sb, c),
    ensures
        volume::used(extent_write::run_freed(st, sb, start, n).0, sb, c),
    decreases n,
{
    if n > 0 {
        let s1 = extent_write::block_freed(st, sb, start).0;
        lemma_block_freed(st, sb, start);
        lemma_own_maps(st, s1);
        lemma_others_marked(st, sb, start, c);
        lemma_run_marked(s1, sb, (start + 1) as u64, n - 1, c);
    }
}

proof fn lemma_leaf_marked(st: FsState, sb: Superblock, node: Seq<u8>, i: int, n: int, c: u64)
    requires
        readable(st, sb),
        own_maps(st.gdt),
        0 <= i <= n,
        extent::entry_offset(n) <= node.len(),
        extent_write::leaf_truncated(st, sb, node, i, n, 0).1 is Ok,
        !leaf_leads(node, i, n, c),
        volume::used(st, sb, c),
    ensures
        volume::used(extent_write::leaf_truncated(st, sb, node, i, n, 0).0, sb, c),
    decreases n - i,
{
    if i < n {
        let leaf = extent::leaf_at(node, extent::entry_offset(i));
        let s1 = extent_write::run_freed(st, sb, leaf.phys(), leaf.blocks()).0;
        let less = extent_write::without_entry(node, i, n);
        lemma_run_freed(st, sb, leaf.phys(), leaf.blocks());
        lemma_own_maps(st, s1);
        lemma_run_marked(st, sb, leaf.phys(), leaf.blocks(), c);
        lemma_without_entry(node, i, n);
        assert(!leaf_leads(less, i, n - 1, c)) by {
            if leaf_leads(less, i, n - 1, c) {
                let k = choose|k: int|
                    i <= k < n - 1 && {
                        let leaf = #[trigger] extent::leaf_at(less, extent::entry_offset(k));
                        leaf.phys() <= c < leaf.phys() + leaf.blocks()
                    };
                assert(leaf_list(less, n - 1)[k] == leaf_list(node, n)[k + 1]);
                assert(leaf_list(less, n - 1)[k] == extent::leaf_at(
                    less,
                    extent::entry_offset(k),
                ));
                assert(leaf_list(node, n)[k + 1] == extent::leaf_at(
                    node,
                    extent::entry_offset(k + 1),
                ));
            }
        }
        lemma_leaf_marked(s1, sb, less, i, n - 1, c);
    }
}

/// What a tree leads to is the same where no block but the groups' changed, and none of
/// its nodes is one of those.
proof fn lemma_leads_same(
    st: FsState,
    s: FsState,
    sb: Superblock,
    node: Seq<u8>,
    d: nat,
    c: u64,
)
    requires
        gave_back(st, s, sb),
        !leads_to(st.disk, sb.block_size, node, d, c),
        forall|b: u64| volume::is_group_block(st.gdt, sb, b) ==> !#[trigger] leads_to(
            st.disk,
            sb.block_size,
            node,
            d,
            b,
        ),
    ensures
        !leads_to(s.disk, sb.block_size, node, d, c),
    decreases d, 70000int,
{
    if d > 0 {
        let n = extent::header(node).eh_entries as int;
        assert forall|y: u64| volume::is_group_block(st.gdt, sb, y) implies !#[trigger] kids_lead(
            st.disk,
            sb.block_size,
            node,
            d,
            0,
            n,
            y,
        ) by {
            assert(!leads_to(st.disk, sb.block_size, node, d, y));
        }
        lemma_kids_lead_same(st, s, sb, node, d, 0, n, c);
    }
}

proof fn lemma_kids_lead_same(
    st: FsState,
    s: FsState,
    sb: Superblock,
    node: Seq<u8>,
    d: nat,
    i: int,
    n: int,
    c: u64,
)
    requires
        gave_back(st, s, sb),
        d > 0,
        !kids_lead(st.disk, sb.block_size, node, d, i, n, c),
        forall|b: u64| volume::is_group_block(st.gdt, sb, b) ==> !#[trigger] kids_lead(
            st.disk,
            sb.block_size,
            node,
            d,
            i,
            n,
            b,
        ),
    ensures
        !kids_lead(s.disk, sb.block_size, node, d, i, n, c),
    decreases d, n - i,
{
    if i < n {
        let bs = sb.block_size;
        let b = extent::idx_at(node, extent::entry_offset(i)).child();
        let x = block_device::block_at(st.disk, bs, b);
        assert(!volume::is_group_block(st.gdt, sb, b)) by {
            if volume::is_group_block(st.gdt, sb, b) {
                assert(!kids_lead(st.disk, bs, node, d, i, n, b));
            }
        }
        assert(block_device::block_at(s.disk, bs, b) == x);
        assert forall|y: u64| volume::is_group_block(st.gdt, sb, y) implies !#[trigger] kids_lead(
            st.disk,
            bs,
            node,
            d,
            i + 1,
            n,
            y,
        ) by {
            assert(!kids_lead(st.disk, bs, node, d, i, n, y));
        }
        if x is Ok {
            assert forall|y: u64|
                volume::is_group_block(st.gdt, sb, y) implies !#[trigger] leads_to(
                st.disk,
                bs,
                x->Ok_0,
                (d - 1) as nat,
                y,
            ) by {
                assert(!kids_lead(st.disk, bs, node, d, i, n, y));
            }
            lemma_leads_same(st, s, sb, x->Ok_0, (d - 1) as nat, c);
        }
        lemma_kids_lead_same(st, s, sb, node, d, i + 1, n, c);
    }
}

/// Entries that moved up lead where they led.
proof fn lemma_lead_moved(
    disk: Seq<u8>,
    bs: u32,
    node: Seq<u8>,
    d: nat,
    i: int,
    n: int,
    k: int,
    c: u64,
)
    requires
        0 <= i <= k < n,
        d > 0,
        extent::entry_offset(n) <= node.len(),
    ensures
        kids_lead(disk, bs, extent_write::without_entry(node, i, n), d, k, n - 1, c) == kids_lead(
            disk,
            bs,
            node,
            d,
            k + 1,
            n,
            c,
        ),
    decreases n - k,
{
    let less = extent_write::without_entry(node, i, n);
    lemma_without_entry(node, i, n);
    if k < n - 1 {
        assert(kid(less, k) == kid(node, k + 1));
        lemma_lead_moved(disk, bs, node, d, i, n, k + 1, c);
    }
}

/// Whether block `c` is marked as used, a tree leads neither to it nor to a group's
/// block, and each group has a bitmap of its own.
pub open spec fn out_of_tree(
    st: FsState,
    sb: Superblock,
    node: Seq<u8>,
    d: nat,
    c: u64,
) -> bool {
    &&& readable(st, sb)
    &&& own_maps(st.gdt)
    &&& volume::used(st, sb, c)
    &&& !leads_to(st.disk, sb.block_size, node, d, c)
    &&& forall|b: u64| volume::is_group_block(st.gdt, sb, b) ==> !#[trigger] leads_to(
        st.disk,
        sb.block_size,
        node,
        d,
        b,
    )
}

/// The same for the subtrees from entry `i` to `n`.
pub open spec fn out_of_kids(
    st: FsState,
    sb: Superblock,
    node: Seq<u8>,
    d: nat,
    i: int,
    n: int,
    c: u64,
) -> bool {
    &&& readable(st, sb)
    &&& own_maps(st.gdt)
    &&& volume::used(st, sb, c)
    &&& !kids_lead(st.disk, sb.block_size, node, d, i, n, c)
    &&& forall|b: u64| volume::is_group_block(st.gdt, sb, b) ==> !#[trigger] kids_lead(
        st.disk,
        sb.block_size,
        node,
        d,
        i,
        n,
        b,
    )
}

/// A block that the tree does not lead to stays marked when all of the tree goes.
proof fn lemma_node_marked(
    st: FsState,
    sb: Superblock,
    node: Seq<u8>,
    d: nat,
    is_root: bool,
    c: u64,
)
    requires
        out_of_tree(st, sb, node, d, c),
        extent_write::node_truncated(st, sb, node, d, 0, is_root).1 is Ok,
    ensures
        volume::used(extent_write::node_truncated(st, sb, node, d, 0, is_root).0, sb, c),
    decreases d, 70000int,
{
    let n = extent::header(node).eh_entries as int;
    if d == 0 {
        lemma_leaf_marked(st, sb, node, 0, n, c);
    } else {
        assert forall|y: u64| volume::is_group_block(st.gdt, sb, y) implies !#[trigger] kids_lead(
            st.disk,
            sb.block_size,
            node,
            d,
            0,
            n,
            y,
        ) by {
            assert(!leads_to(st.disk, sb.block_size, node, d, y));
        }
        lemma_kids_marked(st, sb, node, 0, n, d, c);
    }
}

proof fn lemma_kids_marked(
    st: FsState,
    sb: Superblock,
    node: Seq<u8>,
    i: int,
    n: int,
    d: nat,
    c: u64,
)
    requires
        out_of_kids(st, sb, node, d, i, n, c),
        0 <= i <= n,
        d > 0,
        extent::entry_offset(n) <= node.len(),
        extent_write::children_truncated(st, sb, node, i, n, d, 0).1 is Ok,
    ensures
        volume::used(extent_write::children_truncated(st, sb, node, i, n, d, 0).0, sb, c),
    decreases d, n - i,
{
    if i < n {
        let bs = sb.block_size;
        let b = extent::idx_at(node, extent::entry_offset(i)).child();
        let child = block_device::block_at(st.disk, bs, b)->Ok_0;
        let below = (d - 1) as nat;
        let less = extent_write::without_entry(node, i, n);
        assert forall|y: u64| volume::is_group_block(st.gdt, sb, y) implies !#[trigger] leads_to(
            st.disk,
            bs,
            child,
            below,
            y,
        ) by {
            assert(!kids_lead(st.disk, bs, node, d, i, n, y));
        }
        lemma_node_emptied(st, sb, child, below, false);
        lemma_node_gave(st, sb, child, below, false);
        lemma_node_marked(st, sb, child, below, false, c);
        let s1 = extent_write::node_truncated(st, sb, child, below, 0, false).0;
        let s2 = extent_write::block_freed(s1, sb, b).0;
        lemma_own_maps(st, s1);
        lemma_block_freed(s1, sb, b);
        lemma_others_marked(s1, sb, b, c);
        lemma_gave_back_twice(st, s1, s2, sb);
        lemma_own_maps(st, s2);
        lemma_without_entry(node, i, n);
        assert forall|y: u64| volume::is_group_block(st.gdt, sb, y) implies !#[trigger] kids_lead(
            st.disk,
            bs,
            node,
            d,
            i + 1,
            n,
            y,
        ) by {
            assert(!kids_lead(st.disk, bs, node, d, i, n, y));
        }
        assert forall|y: u64| y == c || volume::is_group_block(
            s2.gdt,
            sb,
            y,
        ) implies !#[trigger] kids_lead(s2.disk, bs, less, d, i, n - 1, y) by {
            lemma_same_groups(st, s2, sb, y);
            lemma_kids_lead_same(st, s2, sb, node, d, i + 1, n, y);
            lemma_lead_moved(s2.disk, bs, node, d, i, n, i, y);
        }
        lemma_kids_marked(s2, sb, less, i, n - 1, d, c);
    }
}

/// A sound file of which all is cut off is sound still, so that it can be written again.
///
/// Each group has to have a bitmap of its own, and the tree may not lead to a block of
/// the volume's own: what an extent leads to is freed with it, though it was never
/// written.
pub proof fn law_emptied_is_sound(st: FsState, sb: Superblock, num: u32, d: nat)
    requires
        volume::sound_file(st, sb, num, d),
        pins::whole(st, sb),
        tree::end_of(volume::extents_now(st, sb, num)) <= u32::MAX,
        own_maps(st.gdt),
        forall|b: u64|
            volume::is_group_block(st.gdt, sb, b) || b == volume::table_block(st.gdt, sb, num)
                ==> !#[trigger] leads_to(
                st.disk,
                sb.block_size,
                volume::inode_now(st, sb, num).block_data,
                d,
                b,
            ),
        extent_write::truncated(st, sb, num, 0).1 is Ok,
    ensures
        volume::sound_file(extent_write::truncated(st, sb, num, 0).0, sb, num, 0),
        volume::extents_now(extent_write::truncated(st, sb, num, 0).0, sb, num).len() == 0,
{
    let bs = sb.block_size;
    let s = extent_write::truncated(st, sb, num, 0).0;
    let t = volume::table_block(st.gdt, sb, num);
    let g = inode::group_of(sb, num);
    volume::lemma_slot_read(st, sb, num);
    let w = lemma_truncated_on(st, sb, num, d, 0, s.disk);
    pins::law_truncated_whole(st, sb, num, 0);
    assert(st.gdt[g].inode_table == s.gdt[g].inode_table);
    assert(volume::agrees(st, bs, t));
    assert(volume::agrees(s, bs, t));
    lemma_same_groups(st, s, sb, t);
    assert(w =~= Seq::empty());
    lemma_volume_marked(st, sb, num, d, t);
    assert forall|h: int| 0 <= h < s.gdt.len() implies block_device::block_at(
        s.disk,
        bs,
        #[trigger] block_alloc::gdt_block(sb, h),
    ) is Ok && volume::used(s, sb, block_alloc::gdt_block(sb, h)) by {
        let b = block_alloc::gdt_block(sb, h);
        reveal(volume::is_group_block);
        assert(volume::is_of_group(st.gdt, sb, h, b));
        lemma_volume_marked(st, sb, num, d, b);
        volume::lemma_readable(st.disk, s.disk, bs, b);
    }
    assert forall|h: int| 0 <= h < s.gdt.len() implies volume::used(
        s,
        sb,
        (#[trigger] s.gdt[h]).block_bitmap,
    ) && block_device::block_at(s.disk, bs, s.gdt[h].block_bitmap) is Ok by {
        let b = st.gdt[h].block_bitmap;
        reveal(volume::is_group_block);
        assert(volume::is_of_group(st.gdt, sb, h, b));
        assert(s.gdt[h].block_bitmap == b);
        lemma_volume_marked(st, sb, num, d, b);
        volume::lemma_readable(st.disk, s.disk, bs, b);
    }
    assert(crate::allocator::laws::table_apart(s.gdt, sb)) by {
        lemma_emptied(st, sb, num);
    }
}

/// A block of the volume's own stays marked when all of a file is cut off.
proof fn lemma_volume_marked(st: FsState, sb: Superblock, num: u32, d: nat, c: u64)
    requires
        volume::sound_file(st, sb, num, d),
        own_maps(st.gdt),
        forall|b: u64|
            volume::is_group_block(st.gdt, sb, b) || b == volume::table_block(st.gdt, sb, num)
                ==> !#[trigger] leads_to(
                st.disk,
                sb.block_size,
                volume::inode_now(st, sb, num).block_data,
                d,
                b,
            ),
        extent_write::truncated(st, sb, num, 0).1 is Ok,
        volume::is_group_block(st.gdt, sb, c) || c == volume::table_block(st.gdt, sb, num),
        volume::used(st, sb, c),
    ensures
        volume::used(extent_write::truncated(st, sb, num, 0).0, sb, c),
{
    let bs = sb.block_size;
    let t = volume::table_block(st.gdt, sb, num);
    volume::lemma_slot_read(st, sb, num);
    let rec = extent_write::opened(st, sb, num)->Ok_0;
    append::lemma_same_root(rec);
    let root = extent_write::root_of(rec);
    assert(extent::header(root).eh_depth == d);
    lemma_node_marked(st, sb, root, d, true, c);
    lemma_node_gave(st, sb, root, d, true);
    let s1 = extent_write::node_truncated(st, sb, root, d, 0, true).0;
    let s = extent_write::truncated(st, sb, num, 0).0;
    let g = inode::group_of(sb, num);
    assert(st.gdt[g].inode_table == s1.gdt[g].inode_table);
    let y = fs_state::fetched(s1.disk, s1.txn.blocks, bs, t)->Ok_0;
    let root2 = extent_write::node_truncated(st, sb, root, d, 0, true).1->Ok_0.0;
    let n = extent_write::sectors_under(s1.disk, sb, root2, d)->Ok_0;
    let z = bytes::put(
        y,
        inode::slot_offset(sb, num),
        bytes::put(
            extent_write::with_root(rec, extent_write::lowered(root2)),
            28,
            bytes::le32_bytes(n),
        ),
    );
    assert(s == extent_write::wrote(s1, sb, t, z).0);
    reveal(volume::used);
    let h = block_alloc::group_of(sb, c);
    vstd::arithmetic::div_mod::lemma_div_pos_is_pos(
        c - sb.first_data_block,
        sb.blocks_per_group as int,
    );
    let m = s1.gdt[h].block_bitmap;
    assert(m != t) by {
        reveal(volume::is_group_block);
        assert(st.gdt[h].block_bitmap == m);
        assert(volume::is_of_group(st.gdt, sb, h, m));
    }
    block_device::lemma_block_write_read(s1.disk, bs, t, z, m);
}

/// What cutting a sound file short does: its inode keeps all but the tree, no
/// block changes but those of the groups, of the inode and of the tree, and the
/// new tree lists what is left. Gives that list, as it is on a disk where the
/// blocks of the tree are as they are then.
#[verifier::rlimit(100)]
pub proof fn lemma_truncated_on(
    st: FsState,
    sb: Superblock,
    num: u32,
    d: nat,
    keep: u32,
    disk: Seq<u8>,
) -> (w: Seq<ExtentLeaf>)
    requires
        volume::sound_file(st, sb, num, d),
        tree::end_of(volume::extents_now(st, sb, num)) <= u32::MAX,
        extent_write::truncated(st, sb, num, keep).1 is Ok,
        disk.len() == extent_write::truncated(st, sb, num, keep).0.disk.len(),
        forall|c: u64| #[trigger]
            volume::node_block(st, sb, num, d, c) ==> block_device::block_at(
                disk,
                sb.block_size,
                c,
            ) == block_device::block_at(
                extent_write::truncated(st, sb, num, keep).0.disk,
                sb.block_size,
                c,
            ),
    ensures
        ({
            let s = extent_write::truncated(st, sb, num, keep).0;
            let v = volume::extents_now(st, sb, num);
            &&& inode::inode_at(s.disk, sb, s.gdt, num) is Ok
            &&& volume::inode_now(s, sb, num) == (InodeView {
                block_data: volume::inode_now(s, sb, num).block_data,
                ..volume::inode_now(st, sb, num)
            })
            &&& extent::file_leaves(
                disk,
                sb,
                true,
                volume::inode_now(s, sb, num).block_data,
            ) == Ok::<Seq<ExtentLeaf>, ExtentError>(w)
            &&& tree::in_range(w, 0, tree::end_of(v))
            &&& trimmed(v, w, keep)
            &&& given_back(s, sb, v, keep)
            &&& emptier(st, s, sb)
            &&& keep == 0 ==> extent::header(
                volume::inode_now(s, sb, num).block_data,
            ).eh_entries == 0
            &&& extent::header(volume::inode_now(s, sb, num).block_data).eh_entries == 0
                ==> tree::sound(
                disk,
                sb.block_size,
                volume::inode_now(s, sb, num).block_data,
                0,
                0,
                tree::LOGICAL_END as int,
            )
            &&& volume::record_changed(st, s, sb, num)
            &&& forall|c: u64| #![trigger block_device::block_at(s.disk, sb.block_size, c)]
                !volume::is_group_block(st.gdt, sb, c) && c != volume::table_block(st.gdt, sb, num)
                    && !volume::node_block(st, sb, num, d, c) ==> volume::untouched(
                    st,
                    s,
                    sb.block_size,
                    c,
                )
        }),
{
    let bs = sb.block_size;
    let hops = block_device::sectors(st.disk) as nat;
    let t = volume::table_block(st.gdt, sb, num);
    let v = volume::extents_now(st, sb, num);
    let end = tree::end_of(v);
    volume::lemma_slot_read(st, sb, num);
    volume::lemma_extents(st, sb, num, d);
    let rec = extent_write::opened(st, sb, num)->Ok_0;
    append::lemma_same_root(rec);
    let root = extent_write::root_of(rec);
    assert(extent::header(root).eh_depth == d);
    lemma_narrower(st.disk, bs, root, d, 0, tree::LOGICAL_END as int, end, hops);
    let (s1, r1) = extent_write::node_truncated(st, sb, root, d, keep, true);
    let (root2, _) = r1->Ok_0;
    assert forall|c: u64| #[trigger] tree::within(st.disk, bs, root, d, c) implies
        !volume::is_group_block(st.gdt, sb, c) && c != t by {
        assert(volume::node_block(st, sb, num, d, c));
    }
    let _ = lemma_node_cut(st, sb, root, d, 0, end, keep, true, hops, s1.disk);
    let root3 = extent_write::lowered(root2);
    extent_write::lemma_header(root2, 0, extent::header(root2).eh_max, 0);
    let rec1 = extent_write::with_root(rec, root3);
    let n = extent_write::sectors_under(s1.disk, sb, root2, d)->Ok_0;
    let rec2 = bytes::put(rec1, 28, bytes::le32_bytes(n));
    lemma_short_record(rec, root3, n);
    assert(block_device::block_at(s1.disk, bs, t) == block_device::block_at(st.disk, bs, t));
    let s = extent_write::truncated(st, sb, num, keep).0;
    assert(s == extent_write::flushed(s1, sb, num, rec2).0);
    lemma_flushed_plain(st, s1, sb, num, rec2);
    assert forall|c: u64| #[trigger] tree::within(st.disk, bs, root, d, c) implies
        block_device::block_at(disk, bs, c) == block_device::block_at(s1.disk, bs, c) by {
        assert(volume::node_block(st, sb, num, d, c));
        assert(volume::untouched(s1, s, bs, c));
    }
    let w = lemma_node_cut(st, sb, root, d, 0, end, keep, true, hops, disk);
    assert(volume::inode_now(s, sb, num) == inode::inode_of(rec2));
    lemma_lowered(st, sb, root, d, keep, disk, hops);
    lemma_given_back_later(s1, s, sb, v, keep);
    lemma_emptier(st, s1, s, sb);
    assert forall|c: u64| #![trigger block_device::block_at(s.disk, bs, c)]
        !volume::is_group_block(st.gdt, sb, c) && c != t && !volume::node_block(
            st,
            sb,
            num,
            d,
            c,
        ) implies volume::untouched(st, s, bs, c) by {
        assert(volume::untouched(s1, s, bs, c));
        assert(block_device::block_at(s1.disk, bs, c) == block_device::block_at(st.disk, bs, c));
    }
    w
}

/// Of a leaf that is cut short at its very start no entry is left.
proof fn lemma_leaf_emptied(st: FsState, sb: Superblock, node: Seq<u8>, i: int, n: int)
    requires
        0 <= i <= n,
        extent_write::leaf_truncated(st, sb, node, i, n, 0).1 is Ok,
    ensures
        extent_write::leaf_truncated(st, sb, node, i, n, 0).1->Ok_0.1 == i,
        extent_write::leaf_truncated(st, sb, node, i, n, 0).1->Ok_0.0.len() == node.len(),
    decreases n - i,
{
    broadcast use crate::bytes::lemma_put_len;

    if i < n {
        let leaf = extent::leaf_at(node, extent::entry_offset(i));
        let s1 = extent_write::run_freed(st, sb, leaf.phys(), leaf.blocks()).0;
        lemma_leaf_emptied(s1, sb, extent_write::without_entry(node, i, n), i, n - 1);
    }
}

/// The same of any node.
proof fn lemma_node_emptied(st: FsState, sb: Superblock, node: Seq<u8>, depth: nat, is_root: bool)
    requires
        extent_write::node_truncated(st, sb, node, depth, 0, is_root).1 is Ok,
    ensures
        ({
            let (node2, empty) = extent_write::node_truncated(
                st,
                sb,
                node,
                depth,
                0,
                is_root,
            ).1->Ok_0;
            &&& extent::header(node2).eh_entries == 0
            &&& !is_root ==> empty
        }),
    decreases depth, 70000int,
{
    let h = extent::header(node);
    let n = h.eh_entries as int;
    if depth == 0 {
        lemma_leaf_emptied(st, sb, node, 0, n);
        let mid = extent_write::leaf_truncated(st, sb, node, 0, n, 0).1->Ok_0.0;
        extent_write::lemma_header(mid, 0, h.eh_max, 0);
    } else {
        lemma_kids_emptied(st, sb, node, 0, n, depth);
        let mid = extent_write::children_truncated(st, sb, node, 0, n, depth, 0).1->Ok_0.0;
        extent_write::lemma_header(mid, 0, h.eh_max, depth as u16);
    }
}

proof fn lemma_kids_emptied(
    st: FsState,
    sb: Superblock,
    node: Seq<u8>,
    i: int,
    n: int,
    depth: nat,
)
    requires
        0 <= i <= n,
        depth > 0,
        extent_write::children_truncated(st, sb, node, i, n, depth, 0).1 is Ok,
    ensures
        extent_write::children_truncated(st, sb, node, i, n, depth, 0).1->Ok_0.1 == i,
        extent_write::children_truncated(st, sb, node, i, n, depth, 0).1->Ok_0.0.len()
            == node.len(),
    decreases depth, n - i,
{
    broadcast use crate::bytes::lemma_put_len;

    if i < n {
        let b = extent::idx_at(node, extent::entry_offset(i)).child();
        let child = block_device::block_at(st.disk, sb.block_size, b)->Ok_0;
        let below = (depth - 1) as nat;
        lemma_node_emptied(st, sb, child, below, false);
        let s1 = extent_write::node_truncated(st, sb, child, below, 0, false).0;
        let s2 = extent_write::block_freed(s1, sb, b).0;
        lemma_kids_emptied(s2, sb, extent_write::without_entry(node, i, n), i, n - 1, depth);
    }
}

/// Cutting off all of a leaf changes nothing but the groups' blocks.
proof fn lemma_leaf_gave(st: FsState, sb: Superblock, node: Seq<u8>, i: int, n: int)
    requires
        readable(st, sb),
        0 <= i <= n,
        extent_write::leaf_truncated(st, sb, node, i, n, 0).1 is Ok,
    ensures
        gave_back(st, extent_write::leaf_truncated(st, sb, node, i, n, 0).0, sb),
        readable(extent_write::leaf_truncated(st, sb, node, i, n, 0).0, sb),
    decreases n - i,
{
    if i < n {
        let leaf = extent::leaf_at(node, extent::entry_offset(i));
        let s1 = extent_write::run_freed(st, sb, leaf.phys(), leaf.blocks()).0;
        let less = extent_write::without_entry(node, i, n);
        lemma_run_freed(st, sb, leaf.phys(), leaf.blocks());
        lemma_leaf_gave(s1, sb, less, i, n - 1);
        let s = extent_write::leaf_truncated(s1, sb, less, i, n - 1, 0).0;
        lemma_gave_back_twice(st, s1, s, sb);
    }
}

/// The same of any node: its children all go.
proof fn lemma_node_gave(st: FsState, sb: Superblock, node: Seq<u8>, depth: nat, is_root: bool)
    requires
        readable(st, sb),
        extent_write::node_truncated(st, sb, node, depth, 0, is_root).1 is Ok,
    ensures
        gave_back(st, extent_write::node_truncated(st, sb, node, depth, 0, is_root).0, sb),
        readable(extent_write::node_truncated(st, sb, node, depth, 0, is_root).0, sb),
    decreases depth, 70000int,
{
    let n = extent::header(node).eh_entries as int;
    if depth == 0 {
        lemma_leaf_gave(st, sb, node, 0, n);
    } else {
        lemma_kids_gave(st, sb, node, 0, n, depth);
    }
}

proof fn lemma_kids_gave(st: FsState, sb: Superblock, node: Seq<u8>, i: int, n: int, depth: nat)
    requires
        readable(st, sb),
        0 <= i <= n,
        depth > 0,
        extent_write::children_truncated(st, sb, node, i, n, depth, 0).1 is Ok,
    ensures
        gave_back(st, extent_write::children_truncated(st, sb, node, i, n, depth, 0).0, sb),
        readable(extent_write::children_truncated(st, sb, node, i, n, depth, 0).0, sb),
    decreases depth, n - i,
{
    if i < n {
        let b = extent::idx_at(node, extent::entry_offset(i)).child();
        let child = block_device::block_at(st.disk, sb.block_size, b)->Ok_0;
        let below = (depth - 1) as nat;
        let less = extent_write::without_entry(node, i, n);
        lemma_node_emptied(st, sb, child, below, false);
        lemma_node_gave(st, sb, child, below, false);
        let s1 = extent_write::node_truncated(st, sb, child, below, 0, false).0;
        let s2 = extent_write::block_freed(s1, sb, b).0;
        lemma_block_freed(s1, sb, b);
        lemma_gave_back_twice(st, s1, s2, sb);
        lemma_kids_gave(s2, sb, less, i, n - 1, depth);
        let s = extent_write::children_truncated(s2, sb, less, i, n - 1, depth, 0).0;
        lemma_gave_back_twice(st, s2, s, sb);
    }
}

/// Cutting off all of a file changes nothing but the groups' blocks and its record,
/// whatever its tree is like.
#[verifier::rlimit(60)]
pub proof fn lemma_emptied(st: FsState, sb: Superblock, num: u32)
    requires
        readable(st, sb),
        num > 0,
        volume::agrees(st, sb.block_size, volume::table_block(st.gdt, sb, num)),
        !volume::is_group_block(st.gdt, sb, volume::table_block(st.gdt, sb, num)),
        extent_write::truncated(st, sb, num, 0).1 is Ok,
    ensures
        ({
            let bs = sb.block_size;
            let t = volume::table_block(st.gdt, sb, num);
            let s = extent_write::truncated(st, sb, num, 0).0;
            &&& readable(s, sb)
            &&& emptier(st, s, sb)
            &&& block_device::block_at(st.disk, bs, t) is Ok
            &&& block_device::block_at(s.disk, bs, t) is Ok
            &&& volume::same_beside(
                block_device::block_at(s.disk, bs, t)->Ok_0,
                block_device::block_at(st.disk, bs, t)->Ok_0,
                sb,
                num,
            )
            &&& forall|c: u64| #![trigger block_device::block_at(s.disk, bs, c)]
                !volume::is_group_block(st.gdt, sb, c) && c != t ==> volume::untouched(
                    st,
                    s,
                    bs,
                    c,
                )
        }),
{
    let bs = sb.block_size;
    let t = volume::table_block(st.gdt, sb, num);
    let o = inode::slot_offset(sb, num);
    reveal(volume::agrees);
    inode::lemma_slot_offset(sb, num);
    block_device::lemma_block_at(st.disk, bs, t);
    let rec = extent_write::opened(st, sb, num)->Ok_0;
    let root = extent_write::root_of(rec);
    let d = extent::header(root).eh_depth as nat;
    lemma_node_gave(st, sb, root, d, true);
    lemma_node_emptied(st, sb, root, d, true);
    let s1 = extent_write::node_truncated(st, sb, root, d, 0, true).0;
    let root2 = extent_write::node_truncated(st, sb, root, d, 0, true).1->Ok_0.0;
    let n = extent_write::sectors_under(s1.disk, sb, root2, d)->Ok_0;
    broadcast use crate::bytes::group_codec;

    let rec2 = bytes::put(
        extent_write::with_root(rec, extent_write::lowered(root2)),
        28,
        bytes::le32_bytes(n),
    );
    let g = inode::group_of(sb, num);
    assert(0 <= g < st.gdt.len());
    assert(st.gdt[g].inode_table == s1.gdt[g].inode_table);
    assert(volume::untouched(st, s1, bs, t)) by {
        assert(block_device::block_at(s1.disk, bs, t) == block_device::block_at(s1.disk, bs, t));
    }
    let x = block_device::block_at(st.disk, bs, t)->Ok_0;
    let y = bytes::put(x, o, rec2);
    lemma_same_groups(st, s1, sb, t);
    lemma_wrote(s1, sb, t, y);
    let s = extent_write::truncated(st, sb, num, 0).0;
    assert(s == extent_write::wrote(s1, sb, t, y).0);
    lemma_emptier(st, s1, s, sb);
    assert forall|c: u64| #![trigger block_device::block_at(s.disk, bs, c)]
        !volume::is_group_block(st.gdt, sb, c) && c != t implies volume::untouched(st, s, bs, c) by {
        assert(volume::untouched(s1, s, bs, c));
        assert(block_device::block_at(s1.disk, bs, c) == block_device::block_at(st.disk, bs, c));
    }
}

/// A root that became a leaf lists what it listed, and is sound.
proof fn lemma_lowered(
    st: FsState,
    sb: Superblock,
    root: Seq<u8>,
    d: nat,
    keep: u32,
    disk: Seq<u8>,
    hops: nat,
)
    requires
        tree::sound_node(root, d),
        root.len() == 60,
        extent_write::node_truncated(st, sb, root, d, keep, true).1 is Ok,
        extent_write::node_truncated(st, sb, root, d, keep, true).1->Ok_0.0.len() == 60,
        extent::tree_leaves(
            disk,
            sb.block_size,
            extent_write::node_truncated(st, sb, root, d, keep, true).1->Ok_0.0,
            hops,
        ) is Ok,
    ensures
        ({
            let root2 = extent_write::node_truncated(st, sb, root, d, keep, true).1->Ok_0.0;
            let root3 = extent_write::lowered(root2);
            &&& extent::tree_leaves(disk, sb.block_size, root3, hops) == extent::tree_leaves(
                disk,
                sb.block_size,
                root2,
                hops,
            )
            &&& keep == 0 ==> extent::header(root3).eh_entries == 0
            &&& extent::header(root3).eh_entries == 0 ==> tree::sound(
                disk,
                sb.block_size,
                root3,
                0,
                0,
                tree::LOGICAL_END as int,
            )
        }),
{
    let h = extent::header(root);
    let root2 = extent_write::node_truncated(st, sb, root, d, keep, true).1->Ok_0.0;
    let root3 = extent_write::lowered(root2);
    extent_write::lemma_header(root2, 0, extent::header(root2).eh_max, 0);
    let (mid, left) = if d == 0 {
        extent_write::leaf_truncated(st, sb, root, 0, h.eh_entries as int, keep).1->Ok_0
    } else {
        extent_write::children_truncated(st, sb, root, 0, h.eh_entries as int, d, keep).1->Ok_0
    };
    broadcast use crate::bytes::group_codec;

    if keep == 0 {
        lemma_node_emptied(st, sb, root, d, true);
    }
    assert(root2 == extent_write::with_header(mid, left, h.eh_max, d as u16));
    extent_write::lemma_header(mid, (left as u16) as int, h.eh_max, d as u16);
    if extent::header(root2).eh_entries == 0 {
        assert(extent::header(root2).eh_max == h.eh_max);
        assert(extent::node_leaves(root3) =~= Seq::empty());
        assert(extent::tree_leaves(disk, sb.block_size, root2, hops)->Ok_0 =~= Seq::empty());
    }
}

/// A tree is sound up to where its extents end.
proof fn lemma_narrower(
    disk: Seq<u8>,
    bs: u32,
    node: Seq<u8>,
    d: nat,
    lo: int,
    hi: int,
    end: int,
    hops: nat,
)
    requires
        tree::sound(disk, bs, node, d, lo, hi),
        0 <= lo <= hi,
        d <= hops,
        lo <= end <= hi,
        tree::end_of(extent::tree_leaves(disk, bs, node, hops)->Ok_0) <= end,
    ensures
        tree::sound(disk, bs, node, d, lo, end),
    decreases d,
{
    let n = extent::header(node).eh_entries as int;
    tree::law_listed(disk, bs, node, d, lo, hi, hops);
    let v = extent::tree_leaves(disk, bs, node, hops)->Ok_0;
    if d == 0 {
        assert forall|i: int| #![trigger v[i]] 0 <= i < v.len() implies lo <= v[i].ee_block
            && v[i].blocks() > 0 && v[i].ee_block + v[i].blocks() <= end by {
            if i < v.len() - 1 {
                assert(v[i].ee_block + v[i].blocks() <= v[v.len() - 1].ee_block);
                assert(v[v.len() - 1].blocks() > 0);
            }
        }
    } else {
        let idxs = extent::node_idxs(node);
        let c = tree::child_of(disk, bs, node, n - 1);
        let key = idxs[n - 1].ei_block as int;
        assert(tree::sound(disk, bs, c->Ok_0, (d - 1) as nat, key, hi));
        tree::law_listed(disk, bs, c->Ok_0, (d - 1) as nat, key, hi, (hops - 1) as nat);
        let x = extent::tree_leaves(disk, bs, c->Ok_0, (hops - 1) as nat)->Ok_0;
        tree::lemma_children(disk, bs, node, d, lo, hi, hops, n);
        assert(v.last() == x.last());
        assert(x[x.len() - 1].ee_block >= key);
        lemma_narrower(disk, bs, c->Ok_0, (d - 1) as nat, key, hi, end, (hops - 1) as nat);
        assert forall|k: int| 0 <= k < n implies {
            let y = #[trigger] tree::child_of(disk, bs, node, k);
            let from = idxs[k].ei_block as int;
            let to = tree::upper(idxs, k, end);
            &&& lo <= from <= to <= end
            &&& y is Ok
            &&& tree::inhabited(y->Ok_0)
            &&& tree::sound(disk, bs, y->Ok_0, (d - 1) as nat, from, to)
        } by {
            let y = tree::child_of(disk, bs, node, k);
            let from = idxs[k].ei_block as int;
            assert(tree::sound(
                disk,
                bs,
                y->Ok_0,
                (d - 1) as nat,
                from,
                tree::upper(idxs, k, hi),
            ));
            if k + 1 < n {
                if k + 1 < n - 1 {
                    tree::lemma_keys(disk, bs, node, d, lo, hi, k + 1, n - 1);
                }
            }
        }
    }
}

/// The record of an inode whose file was cut short.
proof fn lemma_short_record(rec: Seq<u8>, root: Seq<u8>, sectors: u32)
    requires
        rec.len() == 128,
        root.len() == 60,
    ensures
        ({
            let r1 = extent_write::with_root(rec, root);
            let r2 = bytes::put(r1, 28, bytes::le32_bytes(sectors));
            &&& r2.len() == 128
            &&& bytes::le32(r2, 20) == bytes::le32(rec, 20)
            &&& inode::inode_of(r2) == (InodeView { block_data: root, ..inode::inode_of(rec) })
        }),
{
    broadcast use crate::bytes::group_codec;

    let r1 = extent_write::with_root(rec, root);
    let r2 = bytes::put(r1, 28, bytes::le32_bytes(sectors));
    assert(r2.subrange(40, 100) =~= root);
}

/// Writing the record of an inode through, whatever is marked as used.
#[verifier::rlimit(100)]
proof fn lemma_flushed_plain(st: FsState, s1: FsState, sb: Superblock, num: u32, rec: Seq<u8>)
    requires
        volume::sound_volume(st, sb),
        volume::sound_slot(st, sb, num),
        readable(s1, sb),
        emptier(st, s1, sb),
        volume::untouched(
            st,
            s1,
            sb.block_size,
            volume::table_block(st.gdt, sb, num),
        ),
        rec.len() == 128,
        bytes::le32(rec, 20) == 0,
        extent_write::flushed(s1, sb, num, rec).1 is Ok,
    ensures
        ({
            let s = extent_write::flushed(s1, sb, num, rec).0;
            &&& emptier(s1, s, sb)
            &&& inode::inode_at(s.disk, sb, s.gdt, num) == Ok::<InodeView, inode::InodeError>(
                inode::inode_of(rec),
            )
            &&& volume::record_changed(st, s, sb, num)
            &&& forall|c: u64| #![trigger block_device::block_at(s.disk, sb.block_size, c)]
                c != volume::table_block(st.gdt, sb, num) ==> volume::untouched(
                    s1,
                    s,
                    sb.block_size,
                    c,
                )
        }),
{
    let bs = sb.block_size;
    volume::lemma_slot_read(st, sb, num);
    let g = inode::group_of(sb, num);
    assert(st.gdt[g].inode_table == s1.gdt[g].inode_table);
    let b = volume::table_block(st.gdt, sb, num);
    let o = inode::slot_offset(sb, num);
    let t = block_device::block_at(st.disk, bs, b)->Ok_0;
    assert(fs_state::fetched(s1.disk, s1.txn.blocks, bs, b) == Ok::<Seq<u8>, BlockDeviceError>(t))
        by {
        reveal(volume::agrees);
    }
    let t2 = bytes::put(t, o, rec);
    lemma_same_groups(st, s1, sb, b);
    lemma_wrote(s1, sb, b, t2);
    let s = extent_write::flushed(s1, sb, num, rec).0;
    volume::lemma_record_in_block(s.disk, sb, s.gdt, num);
    assert(t2.subrange(o, o + 128) =~= rec);
}

} // verus!
