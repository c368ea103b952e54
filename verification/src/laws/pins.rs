//! A transaction pins whole blocks, each once.
use vstd::prelude::*;
use super::dirs;
use super::volume;
use crate::allocator;
use crate::allocator::bits;
use crate::allocator::block_alloc;
use crate::allocator::block_bitmap;
use crate::block_device;
use crate::bytes;
use crate::dir;
use crate::dir_write;
use crate::extent;
use crate::extent_insert;
use crate::extent_write;
use crate::file_write;
use crate::fs_state;
use crate::fs_state::FsState;
use crate::group_desc::GroupDesc;
use crate::inode;
use crate::inode::InodeView;
use crate::inode_write;
use crate::inode_write::InodeUpdate;
use crate::journal;
use crate::journal::writer;
use crate::superblock::Superblock;

verus! {

broadcast use crate::bytes::lemma_put_len;

/// Whether the transaction pins whole blocks, each once.
pub open spec fn whole(st: FsState, sb: Superblock) -> bool {
    sb.wf() && journal::laws::listed_once(st.txn.blocks, sb.block_size)
}

/// Whether the transaction still sees in `s` what is on the device wherever it did
/// in `st`.
pub open spec fn in_step(st: FsState, s: FsState, sb: Superblock) -> bool {
    &&& s.disk.len() == st.disk.len()
    &&& forall|c: u64|
        volume::agrees(st, sb.block_size, c) ==> #[trigger] volume::agrees(s, sb.block_size, c)
}

/// Pinning a whole block.
pub proof fn lemma_pinned(st: FsState, sb: Superblock, b: u64, data: Seq<u8>)
    requires
        whole(st, sb),
        data.len() == sb.block_size,
    ensures
        whole(fs_state::pin(st, b, data), sb),
{
    let old_pins = st.txn.blocks;
    let pins = writer::pin(old_pins, b, data);
    writer::lemma_pin(old_pins, b, data, b);
    writer::lemma_pin_index(old_pins, b);
    assert forall|i: int| 0 <= i < pins.len() implies (#[trigger] pins[i]).1.len()
        == sb.block_size by {
        if i < old_pins.len() {
            assert(old_pins[i].1.len() == sb.block_size);
        }
    }
}

/// Writing a whole block through.
pub proof fn lemma_stored(st: FsState, sb: Superblock, b: u64, data: Seq<u8>)
    requires
        whole(st, sb),
        data.len() == sb.block_size,
    ensures
        whole(fs_state::store(st, sb.block_size, b, data).0, sb),
        fs_state::store(st, sb.block_size, b, data).0.disk.len() == st.disk.len(),
        st.disk.len() % 512 == 0 && fs_state::store(st, sb.block_size, b, data).1 is Ok ==> {
            &&& in_step(st, fs_state::store(st, sb.block_size, b, data).0, sb)
            &&& volume::agrees(
                fs_state::store(st, sb.block_size, b, data).0,
                sb.block_size,
                b,
            )
        },
{
    lemma_pinned(st, sb, b, data);
    reveal(volume::agrees);
    let bs = sb.block_size;
    let s = fs_state::store(st, bs, b, data).0;
    if st.disk.len() % 512 == 0 && fs_state::store(st, bs, b, data).1 is Ok {
        assert forall|c: u64| c == b || volume::agrees(st, bs, c) implies #[trigger] volume::agrees(
            s,
            bs,
            c,
        ) by {
            writer::lemma_pin(st.txn.blocks, b, data, c);
            block_device::lemma_block_write_read(st.disk, bs, b, data, c);
        }
    }
}

/// What is fetched is a whole block.
pub proof fn lemma_fetched(st: FsState, sb: Superblock, b: u64)
    requires
        sb.wf(),
        fs_state::fetched(st.disk, st.txn.blocks, sb.block_size, b) is Ok,
    ensures
        fs_state::fetched(st.disk, st.txn.blocks, sb.block_size, b)->Ok_0.len() == sb.block_size,
{
    block_device::lemma_block_at(st.disk, sb.block_size, b);
}

/// Writing a group's counts pins a whole block.
pub proof fn lemma_tallied(st: FsState, sb: Superblock, g: int, dirs: int)
    requires
        whole(st, sb),
    ensures
        whole(block_alloc::tallied(st, sb, g, dirs).0, sb),
        block_alloc::tallied(st, sb, g, dirs).0.disk.len() == st.disk.len(),
        st.disk.len() % 512 == 0 && block_alloc::tallied(st, sb, g, dirs).1 is Ok ==> in_step(
            st,
            block_alloc::tallied(st, sb, g, dirs).0,
            sb,
        ),
{
    let b = block_alloc::gdt_block(sb, g);
    let d = block_device::block_at(st.disk, sb.block_size, b);
    block_device::lemma_block_at(st.disk, sb.block_size, b);
    if d is Ok {
        let data = crate::group_desc::described(d->Ok_0, sb, g, st.gdt[g], dirs);
        crate::group_desc::lemma_described_len(d->Ok_0, sb, g, st.gdt[g], dirs);
        lemma_stored(st, sb, b, data);
    }
}

proof fn lemma_allocated_from(st: FsState, sb: Superblock, count: u32, hint: u64, i: int)
    requires
        whole(st, sb),
        0 <= i,
    ensures
        whole(block_alloc::allocated_from(st, sb, count, hint, i).0, sb),
        block_alloc::allocated_from(st, sb, count, hint, i).0.disk.len() == st.disk.len(),
    decreases st.gdt.len() - i,
{
    let n = st.gdt.len() as int;
    if i < n {
        let g = block_alloc::nth_group(hint as int / sb.blocks_per_group as int, i, n);
        lemma_allocated_from(st, sb, count, hint, i + 1);
        if st.gdt[g].free_blocks_count >= count && block_bitmap::loaded(
            st.disk,
            sb,
            st.gdt,
            g,
        ) is Ok {
            let bm = block_bitmap::loaded(st.disk, sb, st.gdt, g)->Ok_0;
            let at = st.gdt[g].block_bitmap;
            block_device::lemma_block_at(st.disk, sb.block_size, at);
            match bits::first_run(bm, count as int, sb.blocks_per_group as int) {
                None => {},
                Some(k) => {
                    allocator::laws::lemma_first_run_is(
                        bm,
                        count as int,
                        sb.blocks_per_group as int,
                    );
                    bits::lemma_run(bm, k as int, count as int, 0);
                    let data = bits::with_run(bm, k as int, count as int);
                    let s1 = fs_state::store(st, sb.block_size, at, data).0;
                    lemma_stored(st, sb, at, data);
                    let s2 = FsState {
                        gdt: crate::group_desc::with_free_blocks(s1.gdt, g, -(count as int)),
                        ..s1
                    };
                    lemma_tallied(s2, sb, g, 0);
                },
            }
        }
    }
}

/// Allocating pins whole blocks.
pub proof fn lemma_allocated(st: FsState, sb: Superblock, count: u32, hint: u64)
    requires
        whole(st, sb),
    ensures
        whole(block_alloc::allocated(st, sb, count, hint).0, sb),
        block_alloc::allocated(st, sb, count, hint).0.disk.len() == st.disk.len(),
{
    lemma_allocated_from(st, sb, count, hint, 0);
}

proof fn lemma_flushed(st: FsState, sb: Superblock, num: u32, rec: Seq<u8>)
    requires
        whole(st, sb),
    ensures
        whole(extent_write::flushed(st, sb, num, rec).0, sb),
        extent_write::flushed(st, sb, num, rec).0.disk.len() == st.disk.len(),
        st.disk.len() % 512 == 0 && extent_write::flushed(st, sb, num, rec).1 is Ok ==> in_step(
            st,
            extent_write::flushed(st, sb, num, rec).0,
            sb,
        ),
{
    let b = inode::slot_block(sb, st.gdt[inode::group_of(sb, num)], num);
    let r = fs_state::fetched(st.disk, st.txn.blocks, sb.block_size, b);
    if r is Ok {
        lemma_fetched(st, sb, b);
        lemma_stored(st, sb, b, bytes::put(r->Ok_0, inode::slot_offset(sb, num), rec));
    }
}

proof fn lemma_wrote(st: FsState, sb: Superblock, b: u64, data: Seq<u8>)
    requires
        whole(st, sb),
        data.len() == sb.block_size,
    ensures
        whole(extent_write::wrote(st, sb, b, data).0, sb),
        extent_write::wrote(st, sb, b, data).0.disk.len() == st.disk.len(),
        st.disk.len() % 512 == 0 && extent_write::wrote(st, sb, b, data).1 is Ok ==> in_step(
            st,
            extent_write::wrote(st, sb, b, data).0,
            sb,
        ),
{
    lemma_stored(st, sb, b, data);
}

proof fn lemma_split(
    st: FsState,
    sb: Superblock,
    hint: u64,
    at: u64,
    node: Seq<u8>,
    root: Seq<u8>,
)
    requires
        whole(st, sb),
        node.len() == sb.block_size,
    ensures
        whole(extent_write::split(st, sb, hint, at, node, root).0, sb),
        extent_write::split(st, sb, hint, at, node, root).0.disk.len() == st.disk.len(),
{
    let h = extent::header(node);
    let keep = h.eh_entries as int / 2;
    let (s1, r1) = block_alloc::allocated(st, sb, 1, hint);
    lemma_allocated(st, sb, 1, hint);
    if r1 is Ok {
        let high = bytes::put(
            extent_write::with_header(
                bytes::zeros(sb.block_size as int),
                h.eh_entries - keep,
                h.eh_max,
                0,
            ),
            12,
            node.subrange(extent::entry_offset(keep), extent::entry_offset(h.eh_entries as int)),
        );
        let low = extent_write::with_header(node, keep, h.eh_max, 0);
        lemma_wrote(s1, sb, at, low);
        let s2 = extent_write::wrote(s1, sb, at, low).0;
        lemma_wrote(s2, sb, r1->Ok_0, high);
    }
}

proof fn lemma_leaf_added(
    st: FsState,
    sb: Superblock,
    hint: u64,
    at: u64,
    entry: Seq<u8>,
    root: Seq<u8>,
)
    requires
        whole(st, sb),
    ensures
        whole(extent_write::leaf_added(st, sb, hint, at, entry, root).0, sb),
        extent_write::leaf_added(st, sb, hint, at, entry, root).0.disk.len() == st.disk.len(),
{
    let bs = sb.block_size;
    let r = block_device::block_at(st.disk, bs, at);
    block_device::lemma_block_at(st.disk, bs, at);
    if r is Ok && extent_write::parsed(r->Ok_0, at) is Ok {
        let node = r->Ok_0;
        let h = extent::header(node);
        if h.eh_entries < h.eh_max {
            lemma_wrote(st, sb, at, extent_write::with_leaf(node, h, entry));
        } else {
            lemma_split(st, sb, hint, at, node, root);
            let (s1, r1) = extent_write::split(st, sb, hint, at, node, root);
            if r1 is Ok {
                let fresh = r1->Ok_0.0;
                let x = block_device::block_at(s1.disk, bs, fresh);
                block_device::lemma_block_at(s1.disk, bs, fresh);
                if x is Ok {
                    lemma_wrote(
                        s1,
                        sb,
                        fresh,
                        extent_write::with_leaf(x->Ok_0, extent::header(x->Ok_0), entry),
                    );
                }
            }
        }
    }
}

proof fn lemma_grown(st: FsState, sb: Superblock, num: u32, rec: Seq<u8>)
    requires
        whole(st, sb),
    ensures
        whole(extent_write::grown(st, sb, num, rec).0, sb),
        extent_write::grown(st, sb, num, rec).0.disk.len() == st.disk.len(),
{
    let root = extent_write::root_of(rec);
    let h = extent::header(root);
    let (s1, r1) = block_alloc::allocated(st, sb, 1, num as u64);
    lemma_allocated(st, sb, 1, num as u64);
    if r1 is Ok {
        let child = bytes::put(
            extent_write::with_header(
                bytes::zeros(sb.block_size as int),
                h.eh_entries as int,
                extent_write::node_capacity(sb.block_size),
                h.eh_depth,
            ),
            12,
            root.subrange(12, extent::entry_offset(h.eh_entries as int)),
        );
        lemma_wrote(s1, sb, r1->Ok_0, child);
        let s2 = extent_write::wrote(s1, sb, r1->Ok_0, child).0;
        let root2 = bytes::put(
            extent_write::with_header(
                bytes::zeros(60),
                1,
                extent_write::ROOT_MAX_ENTRIES,
                (h.eh_depth + 1) as u16,
            ),
            12,
            extent_write::idx_bytes(0, r1->Ok_0),
        );
        lemma_flushed(s2, sb, num, extent_write::with_root(rec, root2));
    }
}

/// Appending to a tree pins whole blocks.
pub proof fn lemma_appended(st: FsState, sb: Superblock, num: u32, phys: u64, count: u16)
    requires
        whole(st, sb),
    ensures
        whole(extent_write::appended(st, sb, num, phys, count).0, sb),
        extent_write::appended(st, sb, num, phys, count).0.disk.len() == st.disk.len(),
{
    match extent_write::opened(st, sb, num) {
        Err(_) => {},
        Ok(rec) => {
            let root = extent_write::root_of(rec);
            match extent_write::parsed(root, 0) {
                Err(_) => {},
                Ok(h) => if h.eh_depth == 0 {
                    lemma_appended_flat(st, sb, num, rec, phys, count);
                } else {
                    lemma_appended_deep(st, sb, num, rec, phys, count);
                },
            }
        },
    }
}

proof fn lemma_appended_flat(
    st: FsState,
    sb: Superblock,
    num: u32,
    rec: Seq<u8>,
    phys: u64,
    count: u16,
)
    requires
        whole(st, sb),
    ensures
        whole(extent_write::appended_flat(st, sb, num, rec, phys, count).0, sb),
        extent_write::appended_flat(st, sb, num, rec, phys, count).0.disk.len() == st.disk.len(),
{
    let root = extent_write::root_of(rec);
    let h = extent::header(root);
    let entry = extent_write::leaf_bytes(extent_write::next_logical(root), count, phys);
    match extent_write::coalesced(root, phys, count) {
        Some(root2) => {
            lemma_flushed(
                st,
                sb,
                num,
                extent_write::with_more_blocks(extent_write::with_root(rec, root2), sb, count),
            );
        },
        None => if h.eh_entries < h.eh_max {
            lemma_flushed(
                st,
                sb,
                num,
                extent_write::with_more_blocks(
                    extent_write::with_root(rec, extent_write::with_leaf(root, h, entry)),
                    sb,
                    count,
                ),
            );
        } else {
            lemma_grown(st, sb, num, rec);
            let (s1, r1) = extent_write::grown(st, sb, num, rec);
            if r1 is Ok {
                let rec2 = r1->Ok_0;
                let child = extent::idx_at(extent_write::root_of(rec2), 12).child();
                lemma_leaf_added(
                    s1,
                    sb,
                    num as u64,
                    child,
                    entry,
                    extent_write::root_of(rec2),
                );
                let (s2, r2) = extent_write::leaf_added(
                    s1,
                    sb,
                    num as u64,
                    child,
                    entry,
                    extent_write::root_of(rec2),
                );
                if r2 is Ok {
                    lemma_flushed(
                        s2,
                        sb,
                        num,
                        extent_write::with_more_blocks(
                            extent_write::with_root(rec2, r2->Ok_0),
                            sb,
                            extent_write::with_nodes(count, root, r2->Ok_0),
                        ),
                    );
                }
            }
        },
    }
}

proof fn lemma_appended_deep(
    st: FsState,
    sb: Superblock,
    num: u32,
    rec: Seq<u8>,
    phys: u64,
    count: u16,
)
    requires
        whole(st, sb),
    ensures
        whole(extent_write::appended_deep(st, sb, num, rec, phys, count).0, sb),
        extent_write::appended_deep(st, sb, num, rec, phys, count).0.disk.len() == st.disk.len(),
{
    let bs = sb.block_size;
    let root = extent_write::root_of(rec);
    let h = extent::header(root);
    match extent_write::rightmost(st.disk, bs, root, h.eh_depth as nat) {
        Err(_) => {},
        Ok(at) => {
            let (s1, r1) = extent_write::block_coalesced(st, sb, at, phys, count);
            let x = fs_state::fetched(st.disk, st.txn.blocks, bs, at);
            if x is Ok {
                lemma_fetched(st, sb, at);
                match extent_write::coalesced(x->Ok_0, phys, count) {
                    Some(node2) => {
                        lemma_wrote(st, sb, at, node2);
                    },
                    None => {},
                }
            }
            assert(whole(s1, sb));
            match r1 {
                Err(_) => {},
                Ok(true) => {
                    lemma_flushed(s1, sb, num, extent_write::with_more_blocks(rec, sb, count));
                },
                Ok(false) => {
                    let y = block_device::block_at(s1.disk, bs, at);
                    if y is Ok && extent_write::parsed(y->Ok_0, at) is Ok {
                        let entry = extent_write::leaf_bytes(
                            extent_write::next_logical(y->Ok_0),
                            count,
                            phys,
                        );
                        lemma_placed(
                            s1,
                            sb,
                            num,
                            extent_write::next_logical(y->Ok_0) as int,
                            phys,
                            count,
                        );
                        lemma_leaf_added(s1, sb, num as u64, at, entry, root);
                        let (s2, r2) = extent_write::leaf_added(
                            s1,
                            sb,
                            num as u64,
                            at,
                            entry,
                            root,
                        );
                        if r2 is Ok {
                            lemma_flushed(
                                s2,
                                sb,
                                num,
                                extent_write::with_more_blocks(
                                    extent_write::with_root(rec, r2->Ok_0),
                                    sb,
                                    extent_write::with_nodes(count, root, r2->Ok_0),
                                ),
                            );
                        }
                    }
                },
            }
        },
    }
}

proof fn lemma_entry_put(
    st: FsState,
    sb: Superblock,
    hint: u64,
    node: Seq<u8>,
    b: u64,
    i: int,
    entry: Seq<u8>,
)
    requires
        whole(st, sb),
    ensures
        whole(extent_insert::entry_put(st, sb, hint, node, b, i, entry).0, sb),
        extent_insert::entry_put(st, sb, hint, node, b, i, entry).0.disk.len() == st.disk.len(),
        extent_insert::entry_put(st, sb, hint, node, b, i, entry).1 is Ok
            ==> extent_insert::entry_put(
            st,
            sb,
            hint,
            node,
            b,
            i,
            entry,
        ).1->Ok_0.node.len() == node.len(),
{
    let n = extent::header(node).eh_entries as int;
    let keep = n / 2;
    let (s1, r1) = block_alloc::allocated(st, sb, 1, hint);
    lemma_allocated(st, sb, 1, hint);
    if r1 is Ok {
        let high = extent_insert::upper_half(node, sb.block_size, keep);
        let high2 = if i <= keep {
            high
        } else {
            extent_insert::with_inserted(high, i - keep, entry)
        };
        lemma_wrote(s1, sb, r1->Ok_0, high2);
    }
}

proof fn lemma_put_in(
    st: FsState,
    sb: Superblock,
    hint: u64,
    node: Seq<u8>,
    b: u64,
    depth: nat,
    at: u32,
    phys: u64,
    count: u16,
)
    requires
        whole(st, sb),
    ensures
        ({
            let (s, r) = extent_insert::put_in(st, sb, hint, node, b, depth, at, phys, count);
            &&& whole(s, sb)
            &&& s.disk.len() == st.disk.len()
            &&& r is Ok ==> r->Ok_0.node.len() == node.len()
        }),
    decreases depth,
{
    let n = extent::header(node).eh_entries as int;
    if depth == 0 {
        lemma_entry_put(
            st,
            sb,
            hint,
            node,
            b,
            extent_insert::place(node, at, n),
            extent_write::leaf_bytes(at, count, phys),
        );
    } else {
        let k = extent_insert::child_place(node, at, n);
        let c = extent::idx_at(node, extent::entry_offset(k)).child();
        let x = block_device::block_at(st.disk, sb.block_size, c);
        block_device::lemma_block_at(st.disk, sb.block_size, c);
        if x is Ok {
            let child = x->Ok_0;
            let e = (depth - 1) as nat;
            lemma_put_in(st, sb, hint, child, c, e, at, phys, count);
            let (s1, r1) = extent_insert::put_in(st, sb, hint, child, c, e, at, phys, count);
            if r1 is Ok {
                let p = r1->Ok_0;
                lemma_wrote(s1, sb, c, p.node);
                let s2 = extent_write::wrote(s1, sb, c, p.node).0;
                let node2 = extent_insert::with_key(
                    node,
                    k,
                    extent_insert::lesser(extent_insert::key_at(node, k), at),
                );
                if p.split is Some {
                    let (key, fresh) = p.split->Some_0;
                    lemma_entry_put(
                        s2,
                        sb,
                        hint,
                        node2,
                        b,
                        k + 1,
                        extent_write::idx_bytes(key, fresh),
                    );
                }
            }
        }
    }
}

/// Mapping blocks at a place of a tree pins whole blocks.
proof fn lemma_placed(st: FsState, sb: Superblock, num: u32, at: int, phys: u64, count: u16)
    requires
        whole(st, sb),
    ensures
        whole(extent_insert::inserted(st, sb, num, at, phys, count).0, sb),
        extent_insert::inserted(st, sb, num, at, phys, count).0.disk.len() == st.disk.len(),
{
    match extent_write::opened(st, sb, num) {
        Err(_) => {},
        Ok(rec) => {
            lemma_grown(st, sb, num, rec);
            let (s1, r1) = extent_insert::roomy(st, sb, num, rec, at as u32, phys, count);
            if r1 is Ok {
                let (rec1, taken) = r1->Ok_0;
                let root = extent_write::root_of(rec1);
                let d = extent::header(root).eh_depth as nat;
                lemma_put_in(s1, sb, num as u64, root, 0, d, at as u32, phys, count);
                let (s2, r2) = extent_insert::put_in(
                    s1,
                    sb,
                    num as u64,
                    root,
                    0,
                    d,
                    at as u32,
                    phys,
                    count,
                );
                if r2 is Ok {
                    let p = r2->Ok_0;
                    lemma_flushed(
                        s2,
                        sb,
                        num,
                        extent_write::with_more_blocks(
                            extent_write::with_root(rec1, p.node),
                            sb,
                            (count + taken + p.taken) as u16,
                        ),
                    );
                }
            }
        },
    }
}

proof fn lemma_shrinking(st: FsState, sb: Superblock, want: u32, hint: u64)
    requires
        whole(st, sb),
    ensures
        whole(file_write::shrinking(st, sb, want, hint).0, sb),
        file_write::shrinking(st, sb, want, hint).0.disk.len() == st.disk.len(),
    decreases want,
{
    lemma_allocated(st, sb, want, hint);
    let (s1, r1) = block_alloc::allocated(st, sb, want, hint);
    if r1 is Err && want > 1 {
        lemma_shrinking(s1, sb, want / 2, hint);
    }
}

proof fn lemma_filled(st: FsState, sb: Superblock, num: u32, hint: u64, l: int, n: int)
    requires
        whole(st, sb),
    ensures
        whole(file_write::filled(st, sb, num, hint, l, n).0, sb),
        file_write::filled(st, sb, num, hint, l, n).0.disk.len() == st.disk.len(),
    decreases n,
{
    if 0 < n <= u32::MAX {
        lemma_shrinking(st, sb, n as u32, hint);
        let (s1, r1) = file_write::shrinking(st, sb, n as u32, hint);
        if r1 is Ok {
            let (p, got) = r1->Ok_0;
            file_write::lemma_shrinking(st, sb, n as u32, hint);
            let at = p * (sb.block_size as int / 512);
            let zeros = bytes::zeros(got * sb.block_size);
            let s2 = FsState { disk: block_device::written(s1.disk, at, zeros), ..s1 };
            lemma_placed(s2, sb, num, l, p, got as u16);
            let (s3, r3) = extent_insert::inserted(s2, sb, num, l, p, got as u16);
            if r3 is Ok {
                lemma_filled(s3, sb, num, hint, l + got, n - got);
            }
        }
    }
}

proof fn lemma_provisioned(
    st: FsState,
    sb: Superblock,
    num: u32,
    i: InodeView,
    l: int,
    last: int,
)
    requires
        whole(st, sb),
    ensures
        whole(file_write::provisioned(st, sb, num, i, l, last).0, sb),
        file_write::provisioned(st, sb, num, i, l, last).0.disk.len() == st.disk.len(),
    decreases last + 1 - l,
{
    if l <= last {
        match file_write::mapped_block(st.disk, sb, i, l) {
            Err(_) => {},
            Ok(Some(_)) => {
                lemma_provisioned(st, sb, num, i, l + 1, last);
            },
            Ok(None) => match file_write::run_end(st.disk, sb, i, l, l + 1, last) {
                Err(_) => {},
                Ok(end) => {
                    let hint = block_device::max(i.size as int / sb.block_size as int, l) as u64;
                    lemma_filled(st, sb, num, hint, l, end - l);
                    let (s1, r1) = file_write::filled(st, sb, num, hint, l, end - l);
                    if r1 is Ok {
                        file_write::lemma_run_end(st.disk, sb, i, l, l + 1, last);
                        if inode::inode_at(s1.disk, sb, s1.gdt, num) is Ok {
                            lemma_provisioned(
                                s1,
                                sb,
                                num,
                                inode::inode_at(s1.disk, sb, s1.gdt, num)->Ok_0,
                                end,
                                last,
                            );
                        }
                    }
                },
            },
        }
    }
}

proof fn lemma_poured(
    st: FsState,
    sb: Superblock,
    map: Seq<u64>,
    offset: int,
    data: Seq<u8>,
    k: int,
)
    requires
        whole(st, sb),
    ensures
        whole(file_write::poured(st, sb, map, offset, data, k).0, sb),
        file_write::poured(st, sb, map, offset, data, k).0.disk.len() == st.disk.len(),
    decreases map.len() - k,
{
    let bs = sb.block_size as int;
    if k < map.len() {
        let base = if file_write::is_whole(bs, offset, data, k) {
            Ok(bytes::zeros(bs))
        } else {
            block_device::block_at(st.disk, sb.block_size, map[k])
        };
        block_device::lemma_block_at(st.disk, sb.block_size, map[k]);
        if base is Ok {
            let x = bytes::put(
                base->Ok_0,
                file_write::part_offset(bs, offset, k),
                file_write::part(bs, offset, data, k),
            );
            lemma_stored(st, sb, map[k], x);
            lemma_poured(
                fs_state::store(st, sb.block_size, map[k], x).0,
                sb,
                map,
                offset,
                data,
                k + 1,
            );
        }
    }
}

/// Writing data pins whole blocks, each once.
pub proof fn law_written_whole(
    st: FsState,
    sb: Superblock,
    num: u32,
    i: InodeView,
    offset: int,
    data: Seq<u8>,
)
    requires
        whole(st, sb),
    ensures
        whole(file_write::file_written(st, sb, num, i, offset, data).0, sb),
        file_write::file_written(st, sb, num, i, offset, data).0.disk.len() == st.disk.len(),
{
    let bs = sb.block_size as int;
    if data.len() > 0 {
        let first = offset / bs;
        let last = (offset + data.len() - 1) / bs;
        lemma_provisioned(st, sb, num, i, first, last);
        let (s1, r1) = file_write::provisioned(st, sb, num, i, first, last);
        if r1 is Ok {
            lemma_poured(s1, sb, r1->Ok_0, offset, data, 0);
        }
    }
}

/// Updating an inode pins a whole block.
pub proof fn lemma_updated(st: FsState, sb: Superblock, num: u32, u: InodeUpdate)
    requires
        whole(st, sb),
    ensures
        whole(
            (FsState {
                txn: inode_write::updated(st.disk, sb, st.gdt, st.txn, num, u).0,
                ..st
            }),
            sb,
        ),
{
    lemma_updated_as(st, sb, st.gdt, num, u);
}

/// The same where the inode is looked up in other descriptors.
proof fn lemma_updated_as(
    st: FsState,
    sb: Superblock,
    gdt: Seq<GroupDesc>,
    num: u32,
    u: InodeUpdate,
)
    requires
        whole(st, sb),
    ensures
        whole(
            (FsState { txn: inode_write::updated(st.disk, sb, gdt, st.txn, num, u).0, ..st }),
            sb,
        ),
{
    let b = inode::slot_block(sb, gdt[inode::group_of(sb, num)], num);
    let o = inode::slot_offset(sb, num);
    let r = fs_state::fetched(st.disk, st.txn.blocks, sb.block_size, b);
    if r is Ok {
        lemma_fetched(st, sb, b);
        lemma_pinned(
            st,
            sb,
            b,
            bytes::put(r->Ok_0, o, inode_write::updated_record(r->Ok_0.subrange(o, o + 128), u)),
        );
    }
}

proof fn lemma_block_freed(st: FsState, sb: Superblock, b: u64)
    requires
        whole(st, sb),
    ensures
        whole(extent_write::block_freed(st, sb, b).0, sb),
        extent_write::block_freed(st, sb, b).0.disk.len() == st.disk.len(),
        st.disk.len() % 512 == 0 && extent_write::block_freed(st, sb, b).1 is Ok ==> in_step(
            st,
            extent_write::block_freed(st, sb, b).0,
            sb,
        ),
{
    reveal(volume::agrees);
    let g = block_alloc::group_of(sb, b);
    let k = block_alloc::bit_of(sb, b);
    let r = block_bitmap::loaded(st.disk, sb, st.gdt, g);
    if b >= sb.first_data_block && r is Ok && k < 8 * r->Ok_0.len() && bits::bit(r->Ok_0, k) {
        let at = st.gdt[g].block_bitmap;
        block_device::lemma_block_at(st.disk, sb.block_size, at);
        let data = bits::without_bit(r->Ok_0, k);
        lemma_stored(st, sb, at, data);
        let s1 = fs_state::revoke(fs_state::store(st, sb.block_size, at, data).0, b);
        let s2 = FsState { gdt: crate::group_desc::with_free_blocks(s1.gdt, g, 1), ..s1 };
        lemma_tallied(s2, sb, g, 0);
        let s3 = extent_write::block_freed(st, sb, b).0;
        if st.disk.len() % 512 == 0 && extent_write::block_freed(st, sb, b).1 is Ok {
            assert forall|c: u64| volume::agrees(
                st,
                sb.block_size,
                c,
            ) implies #[trigger] volume::agrees(s3, sb.block_size, c) by {
                assert(volume::agrees(
                    fs_state::store(st, sb.block_size, at, data).0,
                    sb.block_size,
                    c,
                ));
                assert(volume::agrees(s2, sb.block_size, c));
                assert(volume::agrees(
                    block_alloc::tallied(s2, sb, g, 0).0,
                    sb.block_size,
                    c,
                ));
            }
        }
    }
}

proof fn lemma_run_freed(st: FsState, sb: Superblock, start: u64, n: int)
    requires
        whole(st, sb),
    ensures
        whole(extent_write::run_freed(st, sb, start, n).0, sb),
        extent_write::run_freed(st, sb, start, n).0.disk.len() == st.disk.len(),
        st.disk.len() % 512 == 0 && extent_write::run_freed(st, sb, start, n).1 is Ok ==> in_step(
            st,
            extent_write::run_freed(st, sb, start, n).0,
            sb,
        ),
    decreases n,
{
    if n > 0 {
        lemma_block_freed(st, sb, start);
        lemma_run_freed(
            extent_write::block_freed(st, sb, start).0,
            sb,
            (start + 1) as u64,
            n - 1,
        );
    }
}

proof fn lemma_leaf_truncated(
    st: FsState,
    sb: Superblock,
    node: Seq<u8>,
    i: int,
    n: int,
    keep: u32,
)
    requires
        whole(st, sb),
    ensures
        ({
            let (s, r) = extent_write::leaf_truncated(st, sb, node, i, n, keep);
            &&& whole(s, sb)
            &&& r is Ok ==> r->Ok_0.0.len() == node.len()
            &&& st.disk.len() % 512 == 0 && r is Ok ==> in_step(st, s, sb)
        }),
    decreases n - i,
{
    if i < n {
        let off = extent::entry_offset(i);
        let leaf = extent::leaf_at(node, off);
        let end = extent_write::sat32(leaf.ee_block + leaf.blocks());
        if leaf.ee_block >= keep {
            lemma_run_freed(st, sb, leaf.phys(), leaf.blocks());
            lemma_leaf_truncated(
                extent_write::run_freed(st, sb, leaf.phys(), leaf.blocks()).0,
                sb,
                extent_write::without_entry(node, i, n),
                i,
                n - 1,
                keep,
            );
        } else if end > keep {
            let kept = keep - leaf.ee_block;
            let from = (leaf.phys() + kept) as u64;
            lemma_run_freed(st, sb, from, end - keep);
            lemma_leaf_truncated(
                extent_write::run_freed(st, sb, from, end - keep).0,
                sb,
                bytes::put(
                    node,
                    off + 4,
                    bytes::le16_bytes(
                        (if leaf.uninit() {
                            kept + extent::MAX_INIT_LEN
                        } else {
                            kept
                        }) as u16,
                    ),
                ),
                i + 1,
                n,
                keep,
            );
        } else {
            lemma_leaf_truncated(st, sb, node, i + 1, n, keep);
        }
    }
}

proof fn lemma_leaves_freed(st: FsState, sb: Superblock, node: Seq<u8>, i: int, n: int)
    requires
        whole(st, sb),
    ensures
        whole(extent_write::leaves_freed(st, sb, node, i, n).0, sb),
        extent_write::leaves_freed(st, sb, node, i, n).0.disk.len() == st.disk.len(),
        st.disk.len() % 512 == 0 && extent_write::leaves_freed(
            st,
            sb,
            node,
            i,
            n,
        ).1 is Ok ==> in_step(
            st,
            extent_write::leaves_freed(st, sb, node, i, n).0,
            sb,
        ),
    decreases n - i,
{
    if i < n {
        let leaf = extent::leaf_at(node, extent::entry_offset(i));
        lemma_run_freed(st, sb, leaf.phys(), leaf.blocks());
        lemma_leaves_freed(
            extent_write::run_freed(st, sb, leaf.phys(), leaf.blocks()).0,
            sb,
            node,
            i + 1,
            n,
        );
    }
}

proof fn lemma_subtree_freed(st: FsState, sb: Superblock, at: u64, depth: nat)
    requires
        whole(st, sb),
    ensures
        whole(extent_write::subtree_freed(st, sb, at, depth).0, sb),
        extent_write::subtree_freed(st, sb, at, depth).0.disk.len() == st.disk.len(),
        st.disk.len() % 512 == 0 && extent_write::subtree_freed(
            st,
            sb,
            at,
            depth,
        ).1 is Ok ==> in_step(
            st,
            extent_write::subtree_freed(st, sb, at, depth).0,
            sb,
        ),
    decreases depth, 70000int,
{
    let r = block_device::block_at(st.disk, sb.block_size, at);
    if r is Ok && extent_write::parsed(r->Ok_0, at) is Ok {
        let node = r->Ok_0;
        let n = extent::header(node).eh_entries as int;
        if depth == 0 {
            lemma_leaves_freed(st, sb, node, 0, n);
            lemma_block_freed(extent_write::leaves_freed(st, sb, node, 0, n).0, sb, at);
        } else {
            lemma_children_freed(st, sb, node, 0, n, depth);
            lemma_block_freed(
                extent_write::children_freed(st, sb, node, 0, n, depth).0,
                sb,
                at,
            );
        }
    }
}

proof fn lemma_children_freed(
    st: FsState,
    sb: Superblock,
    node: Seq<u8>,
    i: int,
    n: int,
    depth: nat,
)
    requires
        whole(st, sb),
        n <= 65535,
        0 <= i,
    ensures
        whole(extent_write::children_freed(st, sb, node, i, n, depth).0, sb),
        extent_write::children_freed(st, sb, node, i, n, depth).0.disk.len() == st.disk.len(),
        st.disk.len() % 512 == 0 && extent_write::children_freed(
            st,
            sb,
            node,
            i,
            n,
            depth,
        ).1 is Ok ==> in_step(
            st,
            extent_write::children_freed(st, sb, node, i, n, depth).0,
            sb,
        ),
    decreases depth, n - i,
{
    if i < n && depth > 0 {
        let child = extent::idx_at(node, extent::entry_offset(i)).child();
        lemma_subtree_freed(st, sb, child, (depth - 1) as nat);
        lemma_children_freed(
            extent_write::subtree_freed(st, sb, child, (depth - 1) as nat).0,
            sb,
            node,
            i + 1,
            n,
            depth,
        );
    }
}

proof fn lemma_node_truncated(
    st: FsState,
    sb: Superblock,
    node: Seq<u8>,
    depth: nat,
    keep: u32,
    is_root: bool,
)
    requires
        whole(st, sb),
    ensures
        ({
            let (s, r) = extent_write::node_truncated(st, sb, node, depth, keep, is_root);
            &&& whole(s, sb)
            &&& r is Ok ==> r->Ok_0.0.len() == node.len()
            &&& st.disk.len() % 512 == 0 && r is Ok ==> in_step(st, s, sb)
        }),
    decreases depth, 70000int,
{
    if extent_write::parsed(node, 0) is Ok {
        let n = extent::header(node).eh_entries as int;
        if depth == 0 {
            lemma_leaf_truncated(st, sb, node, 0, n, keep);
        } else {
            lemma_children_truncated(st, sb, node, 0, n, depth, keep);
        }
    }
}

proof fn lemma_children_truncated(
    st: FsState,
    sb: Superblock,
    node: Seq<u8>,
    i: int,
    n: int,
    depth: nat,
    keep: u32,
)
    requires
        whole(st, sb),
        n <= 65535,
        0 <= i,
    ensures
        ({
            let (s, r) = extent_write::children_truncated(st, sb, node, i, n, depth, keep);
            &&& whole(s, sb)
            &&& r is Ok ==> r->Ok_0.0.len() == node.len()
            &&& st.disk.len() % 512 == 0 && r is Ok ==> in_step(st, s, sb)
        }),
    decreases depth, n - i,
{
    if i < n && depth > 0 {
        let idx = extent::idx_at(node, extent::entry_offset(i));
        let below = (depth - 1) as nat;
        let shorter = extent_write::without_entry(node, i, n);
        if idx.ei_block >= keep && keep > 0 {
            lemma_subtree_freed(st, sb, idx.child(), below);
            let s1 = extent_write::subtree_freed(st, sb, idx.child(), below).0;
            lemma_children_truncated(s1, sb, shorter, i, n - 1, depth, keep);
        } else {
            let r = block_device::block_at(st.disk, sb.block_size, idx.child());
            block_device::lemma_block_at(st.disk, sb.block_size, idx.child());
            if r is Ok {
                lemma_node_truncated(st, sb, r->Ok_0, below, keep, false);
                let (s1, r1) = extent_write::node_truncated(st, sb, r->Ok_0, below, keep, false);
                if r1 is Ok {
                    if r1->Ok_0.1 {
                        lemma_block_freed(s1, sb, idx.child());
                        let s2 = extent_write::block_freed(s1, sb, idx.child()).0;
                        lemma_children_truncated(s2, sb, shorter, i, n - 1, depth, keep);
                    } else {
                        lemma_wrote(s1, sb, idx.child(), r1->Ok_0.0);
                        let s2 = extent_write::wrote(s1, sb, idx.child(), r1->Ok_0.0).0;
                        lemma_children_truncated(s2, sb, node, i + 1, n, depth, keep);
                    }
                }
            }
        }
    }
}

/// Truncating a file pins whole blocks, each once.
pub proof fn law_truncated_whole(st: FsState, sb: Superblock, num: u32, keep: u32)
    requires
        whole(st, sb),
    ensures
        whole(extent_write::truncated(st, sb, num, keep).0, sb),
        st.disk.len() % 512 == 0 && extent_write::truncated(st, sb, num, keep).1 is Ok ==> in_step(
            st,
            extent_write::truncated(st, sb, num, keep).0,
            sb,
        ),
{
    let r = extent_write::opened(st, sb, num);
    if r is Ok {
        let rec = r->Ok_0;
        let root = extent_write::root_of(rec);
        if extent_write::parsed(root, 0) is Ok {
            let d = extent::header(root).eh_depth as nat;
            lemma_node_truncated(st, sb, root, d, keep, true);
            let (s1, r1) = extent_write::node_truncated(st, sb, root, d, keep, true);
            if r1 is Ok {
                let root2 = r1->Ok_0.0;
                let n = extent_write::sectors_under(s1.disk, sb, root2, d);
                if n is Ok {
                    lemma_flushed(
                        s1,
                        sb,
                        num,
                        bytes::put(
                            extent_write::with_root(rec, extent_write::lowered(root2)),
                            28,
                            bytes::le32_bytes(n->Ok_0),
                        ),
                    );
                }
            }
        }
    }
}

proof fn lemma_dir_inserted(
    st: FsState,
    sb: Superblock,
    i: InodeView,
    name: Seq<u8>,
    num: u32,
    file_type: u8,
    l: int,
    n: int,
)
    requires
        whole(st, sb),
    ensures
        whole(dir_write::inserted_from(st, sb, i, name, num, file_type, l, n).0, sb),
        dir_write::inserted_from(
            st,
            sb,
            i,
            name,
            num,
            file_type,
            l,
            n,
        ).0.disk.len() == st.disk.len(),
    decreases n - l,
{
    if l < n {
        lemma_dir_inserted(st, sb, i, name, num, file_type, l + 1, n);
        let r = extent::file_block(st.disk, sb, i.uses_extents(), i.block_data, l as u64);
        if r is Ok && r->Ok_0 is Some {
            let p = r->Ok_0->Some_0;
            if fs_state::fetched(st.disk, st.txn.blocks, sb.block_size, p) is Ok {
                lemma_fetched(st, sb, p);
                let b = fs_state::fetched(st.disk, st.txn.blocks, sb.block_size, p)->Ok_0;
                dirs::lemma_inserted_len(b, 0, name, num, file_type);
                match dir_write::inserted_at(b, 0, name, num, file_type) {
                    Ok(Some(b2)) => {
                        lemma_pinned(st, sb, p, b2);
                    },
                    _ => {},
                }
            }
        }
    }
}

/// Putting an entry into a directory pins whole blocks, each once.
pub proof fn lemma_entered(
    st: FsState,
    sb: Superblock,
    dir_num: u32,
    name: Seq<u8>,
    num: u32,
    file_type: u8,
)
    requires
        whole(st, sb),
    ensures
        whole(dir_write::inserted(st, sb, st.gdt, dir_num, name, num, file_type).0, sb),
        dir_write::inserted(st, sb, st.gdt, dir_num, name, num, file_type).0.disk.len()
            == st.disk.len(),
{
    let r = dir_write::dir_inode(st, sb, st.gdt, dir_num);
    if r is Ok {
        let i = r->Ok_0;
        let n = dir::dir_blocks(sb, i);
        lemma_dir_inserted(st, sb, i, name, num, file_type, 0, n);
        dirs::lemma_not_inserted(st, sb, i, name, num, file_type, 0, n);
        lemma_dir_extended(st, sb, dir_num, i, name, num, file_type);
    }
}

/// Adding an entry to a directory pins whole blocks, each once.
pub proof fn law_added_whole(
    st: FsState,
    sb: Superblock,
    dir_num: u32,
    name: Seq<char>,
    num: u32,
    file_type: u8,
)
    requires
        whole(st, sb),
    ensures
        whole(dir_write::added(st, sb, st.gdt, dir_num, name, num, file_type).0, sb),
        dir_write::added(st, sb, st.gdt, dir_num, name, num, file_type).0.disk.len()
            == st.disk.len(),
{
    lemma_entered(st, sb, dir_num, dir_write::name_bytes(name), num, file_type);
}

proof fn lemma_dir_extended(
    st: FsState,
    sb: Superblock,
    dir_num: u32,
    i: InodeView,
    name: Seq<u8>,
    num: u32,
    file_type: u8,
)
    requires
        whole(st, sb),
    ensures
        whole(dir_write::extended(st, sb, st.gdt, dir_num, i, name, num, file_type).0, sb),
        dir_write::extended(
            st,
            sb,
            st.gdt,
            dir_num,
            i,
            name,
            num,
            file_type,
        ).0.disk.len() == st.disk.len(),
{
    let r = dir_write::growth_hint(st.disk, sb, i);
    if r is Ok {
        let (s1, r1) = block_alloc::allocated(st, sb, 1, r->Ok_0);
        lemma_allocated(st, sb, 1, r->Ok_0);
        if r1 is Ok {
            let data = dir_write::with_dirent(
                bytes::zeros(sb.block_size as int),
                0,
                num,
                name,
                file_type,
                dir_write::coded_len(sb.block_size),
            );
            lemma_pinned(s1, sb, r1->Ok_0, data);
            let s2 = fs_state::pin(s1, r1->Ok_0, data);
            lemma_appended(s2, sb, dir_num, r1->Ok_0, 1);
            let s3 = extent_write::appended(s2, sb, dir_num, r1->Ok_0, 1).0;
            lemma_updated_as(
                s3,
                sb,
                st.gdt,
                dir_num,
                InodeUpdate {
                    size: Some((i.size + sb.block_size) as u64),
                    ..inode_write::no_update()
                },
            );
        }
    }
}

} // verus!
