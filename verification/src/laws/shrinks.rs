//! That a file is made shorter.
use vstd::prelude::*;
use super::success;
use super::trim;
use super::volume;
use crate::allocator::block_alloc;
use crate::allocator::block_bitmap;
use crate::allocator::bits;
use crate::block_device;
use crate::bytes;
use crate::extent;
use crate::extent::ExtentLeaf;
use crate::extent_write;
use crate::fs_state;
use crate::fs_state::FsState;
use crate::inode;
use crate::superblock::Superblock;

verus! {

/// Whether blocks can be freed: each group has a bitmap of its own that is on the device, as is
/// its descriptor, and the transaction can be committed.
pub open spec fn grounded(st: FsState, sb: Superblock) -> bool {
    &&& trim::readable(st, sb)
    &&& trim::own_maps(st.gdt)
    &&& success::settled(st, sb)
    &&& forall|g: int|
        0 <= g < st.gdt.len() ==> block_device::block_at(
            st.disk,
            sb.block_size,
            (#[trigger] st.gdt[g]).block_bitmap,
        ) is Ok && block_device::block_at(
            st.disk,
            sb.block_size,
            block_alloc::gdt_block(sb, g),
        ) is Ok
}

/// A block that is used can be freed.
proof fn lemma_block_freed(st: FsState, sb: Superblock, b: u64)
    requires
        grounded(st, sb),
        volume::used(st, sb, b),
    ensures
        extent_write::block_freed(st, sb, b).1 is Ok,
        grounded(extent_write::block_freed(st, sb, b).0, sb),
        extent_write::block_freed(st, sb, b).0.disk.len() == st.disk.len(),
{
    let bs = sb.block_size;
    let n = sb.blocks_per_group as int;
    let g = block_alloc::group_of(sb, b);
    let k = block_alloc::bit_of(sb, b);
    reveal(volume::used);
    vstd::arithmetic::div_mod::lemma_div_pos_is_pos(b - sb.first_data_block, n);
    vstd::arithmetic::div_mod::lemma_mod_bound(b - sb.first_data_block, n);
    let bm = block_bitmap::loaded(st.disk, sb, st.gdt, g)->Ok_0;
    let at = st.gdt[g].block_bitmap;
    let data = bits::without_bit(bm, k);
    block_device::lemma_block_at(st.disk, bs, at);
    success::lemma_store_settled(st, sb, at, data);
    let s1 = fs_state::revoke(fs_state::store(st, bs, at, data).0, b);
    let s2 = FsState { gdt: crate::group_desc::with_free_blocks(s1.gdt, g, 1), ..s1 };
    let gb = block_alloc::gdt_block(sb, g);
    success::lemma_on(st.disk, s2.disk, bs, gb);
    let d = block_device::block_at(s2.disk, bs, gb)->Ok_0;
    block_device::lemma_block_at(s2.disk, bs, gb);
    crate::group_desc::lemma_described_len(d, sb, g, s2.gdt[g], 0);
    success::lemma_store_settled(
        s2,
        sb,
        gb,
        crate::group_desc::described(d, sb, g, s2.gdt[g], 0),
    );
    trim::lemma_block_freed(st, sb, b);
    let s = extent_write::block_freed(st, sb, b).0;
    trim::lemma_own_maps(st, s);
    assert forall|h: int| 0 <= h < s.gdt.len() implies block_device::block_at(
        s.disk,
        bs,
        (#[trigger] s.gdt[h]).block_bitmap,
    ) is Ok && block_device::block_at(s.disk, bs, block_alloc::gdt_block(sb, h)) is Ok by {
        assert(st.gdt[h].block_bitmap == s.gdt[h].block_bitmap);
        success::lemma_on(st.disk, s.disk, bs, st.gdt[h].block_bitmap);
        success::lemma_on(st.disk, s.disk, bs, block_alloc::gdt_block(sb, h));
    }
}

/// Blocks in a row that are all used can be freed.
proof fn lemma_run_freed(st: FsState, sb: Superblock, start: u64, n: int)
    requires
        grounded(st, sb),
        start + n <= u64::MAX,
        forall|c: u64| start <= c < start + n ==> #[trigger] volume::used(st, sb, c),
    ensures
        extent_write::run_freed(st, sb, start, n).1 is Ok,
        grounded(extent_write::run_freed(st, sb, start, n).0, sb),
        extent_write::run_freed(st, sb, start, n).0.disk.len() == st.disk.len(),
    decreases n,
{
    if n > 0 {
        assert(volume::used(st, sb, start));
        lemma_block_freed(st, sb, start);
        let s1 = extent_write::block_freed(st, sb, start).0;
        assert forall|c: u64| start + 1 <= c < start + 1 + (n - 1) implies #[trigger] volume::used(
            s1,
            sb,
            c,
        ) by {
            assert(volume::used(st, sb, c));
            trim::lemma_others_marked(st, sb, start, c);
        }
        lemma_run_freed(s1, sb, (start + 1) as u64, n - 1);
    }
}

/// Whether extents all hold data, in blocks that are used and that no two of them share.
pub open spec fn held(st: FsState, sb: Superblock, v: Seq<ExtentLeaf>) -> bool {
    &&& forall|k: int, c: u64|
        #![trigger v[k], volume::used(st, sb, c)]
        0 <= k < v.len() && v[k].phys() <= c < v[k].phys() + v[k].blocks() ==> volume::used(
            st,
            sb,
            c,
        )
    &&& forall|k: int|
        0 <= k < v.len() ==> !(#[trigger] v[k]).uninit() && v[k].phys() + v[k].blocks()
            <= u64::MAX && v[k].ee_block + v[k].blocks() <= u32::MAX
    &&& forall|j: int, k: int|
        #![trigger v[j], v[k]]
        0 <= j < k < v.len() ==> v[j].phys() + v[j].blocks() <= v[k].phys() || v[k].phys()
            + v[k].blocks() <= v[j].phys()
}

/// Freeing a part of one extent leaves the others held.
proof fn lemma_held(
    st: FsState,
    s: FsState,
    sb: Superblock,
    v: Seq<ExtentLeaf>,
    w: Seq<ExtentLeaf>,
    x: ExtentLeaf,
    start: u64,
    n: int,
)
    requires
        grounded(st, sb),
        held(st, sb, v),
        v.len() > 0,
        x == v[0],
        x.phys() <= start,
        start + n <= x.phys() + x.blocks(),
        s == extent_write::run_freed(st, sb, start, n).0,
        extent_write::run_freed(st, sb, start, n).1 is Ok,
        w == v.skip(1),
    ensures
        held(s, sb, w),
{
    assert forall|k: int, c: u64|
        #![trigger w[k], volume::used(s, sb, c)]
        0 <= k < w.len() && w[k].phys() <= c < w[k].phys() + w[k].blocks() implies volume::used(
        s,
        sb,
        c,
    ) by {
        assert(w[k] == v[k + 1]);
        assert(v[0].phys() + v[0].blocks() <= v[k + 1].phys() || v[k + 1].phys()
            + v[k + 1].blocks() <= v[0].phys());
        assert(volume::used(st, sb, c));
        trim::lemma_run_marked(st, sb, start, n, c);
    }
    assert forall|k: int| 0 <= k < w.len() implies !(#[trigger] w[k]).uninit() && w[k].phys()
        + w[k].blocks() <= u64::MAX && w[k].ee_block + w[k].blocks() <= u32::MAX by {
        assert(w[k] == v[k + 1]);
    }
    assert forall|j: int, k: int|
        #![trigger w[j], w[k]]
        0 <= j < k < w.len() implies w[j].phys() + w[j].blocks() <= w[k].phys() || w[k].phys()
        + w[k].blocks() <= w[j].phys() by {
        assert(w[j] == v[j + 1] && w[k] == v[k + 1]);
    }
}

/// A leaf node is cut, from its entry `i` on.
#[verifier::rlimit(50)]
proof fn lemma_leaf_cut(st: FsState, sb: Superblock, node: Seq<u8>, i: int, n: int, keep: u32)
    requires
        grounded(st, sb),
        0 <= i <= n,
        extent::entry_offset(n) <= node.len(),
        held(st, sb, trim::leaf_list(node, n).skip(i)),
    ensures
        extent_write::leaf_truncated(st, sb, node, i, n, keep).1 is Ok,
        grounded(extent_write::leaf_truncated(st, sb, node, i, n, keep).0, sb),
        extent_write::leaf_truncated(st, sb, node, i, n, keep).0.disk.len() == st.disk.len(),
    decreases n - i,
{
    if i < n {
        let v = trim::leaf_list(node, n);
        let rest = v.skip(i);
        let leaf = extent::leaf_at(node, extent::entry_offset(i));
        assert(rest[0] == v[i] && v[i] == leaf);
        let end = extent_write::sat32(leaf.ee_block + leaf.blocks());
        assert(end == leaf.ee_block + leaf.blocks());
        assert(rest.skip(1) =~= v.skip(i + 1));
        if leaf.ee_block >= keep {
            let len = leaf.blocks();
            assert forall|c: u64| leaf.phys() <= c < leaf.phys() + len implies #[trigger]
                volume::used(st, sb, c) by {
                assert(rest[0] == leaf);
            }
            lemma_run_freed(st, sb, leaf.phys(), len);
            let s1 = extent_write::run_freed(st, sb, leaf.phys(), len).0;
            lemma_held(st, s1, sb, rest, rest.skip(1), leaf, leaf.phys(), len);
            trim::lemma_without_entry(node, i, n);
            let less = extent_write::without_entry(node, i, n);
            assert(trim::leaf_list(less, n - 1).skip(i) =~= rest.skip(1));
            lemma_leaf_cut(s1, sb, less, i, n - 1, keep);
        } else if end > keep {
            let kept = keep - leaf.ee_block;
            let start = (leaf.phys() + kept) as u64;
            let len = end - keep;
            assert forall|c: u64| start <= c < start + len implies #[trigger] volume::used(
                st,
                sb,
                c,
            ) by {
                assert(rest[0] == leaf);
            }
            lemma_run_freed(st, sb, start, len);
            let s1 = extent_write::run_freed(st, sb, start, len).0;
            lemma_held(st, s1, sb, rest, rest.skip(1), leaf, start, len);
            let short = (if leaf.uninit() {
                kept + extent::MAX_INIT_LEN
            } else {
                kept
            }) as u16;
            trim::lemma_cut_entry(node, i, n, short);
            let node2 = bytes::put(
                node,
                extent::entry_offset(i) + 4,
                bytes::le16_bytes(short),
            );
            assert(trim::leaf_list(node2, n).skip(i + 1) =~= rest.skip(1));
            lemma_leaf_cut(s1, sb, node2, i + 1, n, keep);
        } else {
            assert forall|k: int, c: u64|
                #![trigger rest.skip(1)[k], volume::used(st, sb, c)]
                0 <= k < rest.skip(1).len() && rest.skip(1)[k].phys() <= c < rest.skip(
                    1,
                )[k].phys() + rest.skip(1)[k].blocks() implies volume::used(st, sb, c) by {
                assert(rest.skip(1)[k] == rest[k + 1]);
            }
            assert forall|k: int| 0 <= k < rest.skip(1).len() implies !(
            #[trigger] rest.skip(1)[k]).uninit() && rest.skip(1)[k].phys() + rest.skip(
                1,
            )[k].blocks() <= u64::MAX && rest.skip(1)[k].ee_block + rest.skip(1)[k].blocks()
                <= u32::MAX by {
                assert(rest.skip(1)[k] == rest[k + 1]);
            }
            assert forall|j: int, k: int|
                #![trigger rest.skip(1)[j], rest.skip(1)[k]]
                0 <= j < k < rest.skip(1).len() implies rest.skip(1)[j].phys() + rest.skip(
                1,
            )[j].blocks() <= rest.skip(1)[k].phys() || rest.skip(1)[k].phys() + rest.skip(
                1,
            )[k].blocks() <= rest.skip(1)[j].phys() by {
                assert(rest.skip(1)[j] == rest[j + 1] && rest.skip(1)[k] == rest[k + 1]);
            }
            lemma_leaf_cut(st, sb, node, i + 1, n, keep);
        }
    }
}

/// A sound file whose extents stand in its inode is cut short at any block, where its extents
/// hold data and share no block.
pub proof fn law_cut_succeeds(st: FsState, sb: Superblock, num: u32, keep: u32)
    requires
        volume::sound_file(st, sb, num, 0),
        grounded(st, sb),
        held(st, sb, volume::extents_now(st, sb, num)),
    ensures
        extent_write::truncated(st, sb, num, keep).1 is Ok,
        success::settled(extent_write::truncated(st, sb, num, keep).0, sb),
{
    let bs = sb.block_size;
    volume::lemma_slot_read(st, sb, num);
    volume::lemma_extents(st, sb, num, 0);
    let rec = extent_write::opened(st, sb, num)->Ok_0;
    super::append::lemma_same_root(rec);
    let root = extent_write::root_of(rec);
    assert(root == volume::inode_now(st, sb, num).block_data);
    let n = extent::header(root).eh_entries as int;
    let v = trim::leaf_list(root, n);
    assert(v =~= extent::node_leaves(root));
    assert(v.skip(0) =~= v);
    lemma_leaf_cut(st, sb, root, 0, n, keep);
    let s1 = extent_write::leaf_truncated(st, sb, root, 0, n, keep).0;
    lemma_layout(st, sb, root, 0, n, keep);
    let t = volume::table_block(st.gdt, sb, num);
    let g = inode::group_of(sb, num);
    assert(st.gdt[g].inode_table == s1.gdt[g].inode_table);
    success::lemma_on(st.disk, s1.disk, bs, t);
    block_device::lemma_block_at(s1.disk, bs, t);
    let x = fs_state::fetched(s1.disk, s1.txn.blocks, bs, t)->Ok_0;
    assert forall|r: Seq<u8>| (#[trigger] bytes::put(
        x,
        inode::slot_offset(sb, num),
        r,
    )).len() == bs by {
        bytes::lemma_put_len(x, inode::slot_offset(sb, num), r);
    }
    assert forall|r: Seq<u8>| (#[trigger] extent_write::flushed(s1, sb, num, r)).1 is Ok
        && success::settled(extent_write::flushed(s1, sb, num, r).0, sb) by {
        success::lemma_store_settled(s1, sb, t, bytes::put(x, inode::slot_offset(sb, num), r));
    }
}

/// Cutting a leaf leaves the groups where they are.
proof fn lemma_layout(st: FsState, sb: Superblock, node: Seq<u8>, i: int, n: int, keep: u32)
    ensures
        volume::same_layout(
            st.gdt,
            extent_write::leaf_truncated(st, sb, node, i, n, keep).0.gdt,
        ),
    decreases n - i,
{
    if i < n {
        let leaf = extent::leaf_at(node, extent::entry_offset(i));
        let end = extent_write::sat32(leaf.ee_block + leaf.blocks());
        if leaf.ee_block >= keep {
            lemma_run_layout(st, sb, leaf.phys(), leaf.blocks());
            let s1 = extent_write::run_freed(st, sb, leaf.phys(), leaf.blocks()).0;
            lemma_layout(s1, sb, extent_write::without_entry(node, i, n), i, n - 1, keep);
            lemma_layouts(
                st.gdt,
                s1.gdt,
                extent_write::leaf_truncated(
                    s1,
                    sb,
                    extent_write::without_entry(node, i, n),
                    i,
                    n - 1,
                    keep,
                ).0.gdt,
            );
        } else if end > keep {
            let kept = keep - leaf.ee_block;
            let start = (leaf.phys() + kept) as u64;
            lemma_run_layout(st, sb, start, end - keep);
            let s1 = extent_write::run_freed(st, sb, start, end - keep).0;
            let node2 = bytes::put(
                node,
                extent::entry_offset(i) + 4,
                bytes::le16_bytes(
                    (if leaf.uninit() {
                        kept + extent::MAX_INIT_LEN
                    } else {
                        kept
                    }) as u16,
                ),
            );
            lemma_layout(s1, sb, node2, i + 1, n, keep);
            lemma_layouts(
                st.gdt,
                s1.gdt,
                extent_write::leaf_truncated(s1, sb, node2, i + 1, n, keep).0.gdt,
            );
        } else {
            lemma_layout(st, sb, node, i + 1, n, keep);
        }
    }
}

/// Freeing blocks leaves the groups where they are.
proof fn lemma_run_layout(st: FsState, sb: Superblock, start: u64, n: int)
    ensures
        volume::same_layout(st.gdt, extent_write::run_freed(st, sb, start, n).0.gdt),
    decreases n,
{
    if n > 0 {
        let s1 = extent_write::block_freed(st, sb, start).0;
        lemma_run_layout(s1, sb, (start + 1) as u64, n - 1);
        lemma_layouts(
            st.gdt,
            s1.gdt,
            extent_write::run_freed(s1, sb, (start + 1) as u64, n - 1).0.gdt,
        );
    }
}

/// Groups that stay where they are twice stay where they are.
proof fn lemma_layouts(
    a: Seq<crate::group_desc::GroupDesc>,
    b: Seq<crate::group_desc::GroupDesc>,
    c: Seq<crate::group_desc::GroupDesc>,
)
    requires
        volume::same_layout(a, b),
        volume::same_layout(b, c),
    ensures
        volume::same_layout(a, c),
{
    assert forall|g: int| #![trigger a[g]] #![trigger c[g]]
        0 <= g < a.len() implies a[g].block_bitmap == c[g].block_bitmap && a[g].inode_bitmap
        == c[g].inode_bitmap && a[g].inode_table == c[g].inode_table by {
        assert(a[g].block_bitmap == b[g].block_bitmap);
    }
}

} // verus!
