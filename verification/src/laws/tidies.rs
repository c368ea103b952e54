//! What is left to do after an entry was moved, and what it leaves alone.
use vstd::prelude::*;
use super::names;
use super::pins;
use super::trim;
use super::volume;
use crate::allocator;
use crate::allocator::block_alloc;
use crate::allocator::inode_alloc;
use crate::allocator::inode_bitmap;
use crate::block_device;
use crate::bytes;
use crate::clock;
use crate::extent_write;
use crate::fs_context;
use crate::fs_context::VolState;
use crate::fs_state;
use crate::fs_state::FsState;
use crate::fsp_impl;
use crate::fsp_impl::delete;
use crate::fsp_impl::rename;
use crate::group_desc;
use crate::group_desc::GroupDesc;
use crate::inode;
use crate::inode::InodeView;
use crate::inode_write;
use crate::journal::writer;
use crate::superblock::Superblock;

verus! {

/// Whether inodes are the same but for their links and for when those changed.
pub open spec fn alike(i: InodeView, j: InodeView) -> bool {
    i == (InodeView { links_count: i.links_count, ctime: i.ctime, ..j })
}

/// The table block of inode `num` as a transaction sees it.
pub open spec fn table_seen(s: FsState, sb: Superblock, gdt: Seq<GroupDesc>, num: u32) -> Result<
    Seq<u8>,
    block_device::BlockDeviceError,
> {
    fs_state::fetched(
        s.disk,
        s.txn.blocks,
        sb.block_size,
        volume::table_block(gdt, sb, num),
    )
}

/// Whether the record of inode `num` in table block `b` is the one in `a`, but for
/// its links and for when those changed.
pub open spec fn record_alike(a: Seq<u8>, b: Seq<u8>, sb: Superblock, num: u32) -> bool {
    let o = inode::slot_offset(sb, num);
    let x = a.subrange(o, o + 128);
    let y = b.subrange(o, o + 128);
    &&& alike(inode::inode_of(y), inode::inode_of(x))
    &&& bytes::le32(y, 20) == bytes::le32(x, 20)
}

/// Whether block `b` may be written when inode `num` is freed.
pub open spec fn freed_in(gdt: Seq<GroupDesc>, sb: Superblock, num: u32, b: u64) -> bool {
    ||| volume::is_group_block(gdt, sb, b)
    ||| b == volume::table_block(gdt, sb, num)
    ||| b == names::inode_map(gdt, sb, num)
}

/// Whether the record and the bitmap of inode `num` lie where an inode's do.
pub open spec fn placed(gdt: Seq<GroupDesc>, sb: Superblock, num: u32) -> bool {
    let t = volume::table_block(gdt, sb, num);
    let m = names::inode_map(gdt, sb, num);
    &&& num > 0
    &&& !volume::is_group_block(gdt, sb, t)
    &&& !volume::is_group_block(gdt, sb, m)
    &&& t != m
}

/// Freeing an inode that has no name changes the groups' blocks, the bitmap of its
/// group's inodes, and its record.
#[verifier::rlimit(100)]
proof fn lemma_released(st: FsState, sb: Superblock, num: u32, seconds: Option<u64>)
    requires
        trim::readable(st, sb),
        pins::whole(st, sb),
        forall|c: u64| #[trigger] volume::agrees(st, sb.block_size, c),
        placed(st.gdt, sb, num),
        rename::released(st, sb, num, seconds).1 is Ok,
    ensures
        ({
            let bs = sb.block_size;
            let t = volume::table_block(st.gdt, sb, num);
            let s = rename::released(st, sb, num, seconds).0;
            &&& pins::whole(s, sb)
            &&& s.disk.len() == st.disk.len()
            &&& volume::same_layout(st.gdt, s.gdt)
            &&& fs_state::fetched(s.disk, s.txn.blocks, bs, t) is Ok
            &&& block_device::block_at(st.disk, bs, t) is Ok
            &&& volume::same_beside(
                fs_state::fetched(s.disk, s.txn.blocks, bs, t)->Ok_0,
                block_device::block_at(st.disk, bs, t)->Ok_0,
                sb,
                num,
            )
            &&& block_device::block_at(s.disk, bs, t) is Ok
            &&& volume::same_beside(
                block_device::block_at(s.disk, bs, t)->Ok_0,
                block_device::block_at(st.disk, bs, t)->Ok_0,
                sb,
                num,
            )
            &&& bytes::le32(
                fs_state::fetched(s.disk, s.txn.blocks, bs, t)->Ok_0,
                inode::slot_offset(sb, num) + 20,
            ) == clock::stamp(seconds)
            &&& forall|c: u64| #![trigger block_device::block_at(s.disk, bs, c)]
                !freed_in(st.gdt, sb, num, c) ==> volume::untouched(st, s, bs, c)
        }),
{
    let bs = sb.block_size;
    let t = volume::table_block(st.gdt, sb, num);
    let o = inode::slot_offset(sb, num);
    let m = names::inode_map(st.gdt, sb, num);
    let g = inode::group_of(sb, num);
    let s = rename::released(st, sb, num, seconds).0;
    let i = inode::inode_at(st.disk, sb, st.gdt, num)->Ok_0;
    inode::lemma_slot_offset(sb, num);
    assert(volume::agrees(st, bs, t));
    let s1 = if rename::has_tree(i) {
        trim::lemma_emptied(st, sb, num);
        pins::law_truncated_whole(st, sb, num, 0);
        extent_write::truncated(st, sb, num, 0).0
    } else {
        st
    };
    assert(st.gdt[g].inode_table == s1.gdt[g].inode_table);
    assert(s1.gdt[g].inode_bitmap == m);
    let bm = inode_bitmap::loaded(s1.disk, sb, s1.gdt, g)->Ok_0;
    let data = inode_alloc::cleared(bm, inode::index_of(sb, num));
    block_device::lemma_block_at(s1.disk, bs, m);
    let s2 = fs_state::store(s1, bs, m, data).0;
    pins::lemma_stored(s1, sb, m, data);
    assert forall|c: u64| #![trigger block_device::block_at(s2.disk, bs, c)]
        c != m implies volume::untouched(s1, s2, bs, c) by {
        block_device::lemma_block_write_read(s1.disk, bs, m, data, c);
        writer::lemma_pin(s1.txn.blocks, m, data, c);
    }
    assert(volume::untouched(s1, s2, bs, t)) by {
        assert(block_device::block_at(s2.disk, bs, t) == block_device::block_at(s2.disk, bs, t));
    }
    let y = block_device::block_at(s1.disk, bs, t)->Ok_0;
    let now = clock::stamp(seconds);
    let z = bytes::put(y, o + 20, bytes::le32_bytes(now));
    block_device::lemma_block_at(s2.disk, bs, t);
    bytes::lemma_le32_len(now);
    bytes::lemma_le32_same(y, o + 20, now);
    let s3 = fs_state::store(s2, bs, t, z).0;
    pins::lemma_stored(s2, sb, t, z);
    block_device::lemma_block_write_read(s2.disk, bs, t, z, t);
    writer::lemma_pin(s2.txn.blocks, t, z, t);
    let s4 = FsState { gdt: group_desc::with_free_inodes(s3.gdt, g, 1), ..s3 };
    let dirs = -inode_alloc::dirs_of(inode_alloc::is_dir_at(s3.disk, sb, s3.gdt, num));
    assert(s == block_alloc::tallied(s4, sb, g, dirs).0);
    allocator::laws::lemma_tallied(s4, sb, g, dirs);
    pins::lemma_tallied(s4, sb, g, dirs);
    let gb = block_alloc::gdt_block(sb, g);
    let w = block_device::block_at(s.disk, bs, gb)->Ok_0;
    assert(volume::is_group_block(st.gdt, sb, gb)) by {
        reveal(volume::is_group_block);
        assert(volume::is_of_group(st.gdt, sb, g, gb));
    }
    assert(t != gb);
    writer::lemma_pin(s4.txn.blocks, gb, w, t);
    let x = block_device::block_at(st.disk, bs, t)->Ok_0;
    assert(volume::same_beside(y, x, sb, num));
    assert forall|j: int| 0 <= j < z.len() && !(o <= j < o + 128) implies #[trigger] z[j] == x[j] by {
        assert(z[j] == y[j]);
    }
    assert forall|c: u64| #![trigger block_device::block_at(s.disk, bs, c)]
        !freed_in(st.gdt, sb, num, c) implies volume::untouched(st, s, bs, c) by {
        block_device::lemma_block_write_read(s2.disk, bs, t, z, c);
        writer::lemma_pin(s2.txn.blocks, t, z, c);
        writer::lemma_pin(s4.txn.blocks, gb, w, c);
        assert(volume::untouched(s1, s2, bs, c)) by {
            assert(block_device::block_at(s2.disk, bs, c) == block_device::block_at(
                s2.disk,
                bs,
                c,
            ));
        }
        assert(block_device::block_at(s1.disk, bs, c) == block_device::block_at(st.disk, bs, c));
        assert(volume::untouched(st, s1, bs, c));
    }
}

/// The links of a directory that got one more, or has one less, or both.
pub open spec fn new_links(links: u16, more: bool, less: bool) -> u16 {
    if more == less {
        links
    } else if more {
        rename::one_more(links)
    } else {
        delete::one_less(links)
    }
}

/// The links that the record of inode `num` in a table block counts.
pub open spec fn links_in(b: Seq<u8>, sb: Superblock, num: u32) -> u16 {
    let o = inode::slot_offset(sb, num);
    inode::inode_of(b.subrange(o, o + 128)).links_count
}

/// Changing the links of a directory changes its record in that alone.
#[verifier::rlimit(60)]
proof fn lemma_relinked(
    s: FsState,
    sb: Superblock,
    gdt: Seq<GroupDesc>,
    num: u32,
    more: bool,
    less: bool,
    seconds: Option<u64>,
    other: u32,
)
    requires
        sb.wf(),
        pins::whole(s, sb),
        num > 0,
        other > 0,
        volume::same_layout(gdt, s.gdt),
        rename::relinked(s, sb, num, more, less, seconds).1 is Ok,
        0 <= inode::group_of(sb, other) < gdt.len(),
        table_seen(s, sb, gdt, other) is Ok,
        more != less && other != num ==> inode_write::apart(sb, gdt, other, num),
    ensures
        ({
            let bs = sb.block_size;
            let t = volume::table_block(gdt, sb, num);
            let s2 = rename::relinked(s, sb, num, more, less, seconds).0;
            &&& pins::whole(s2, sb)
            &&& s2.disk == s.disk
            &&& s2.gdt == s.gdt
            &&& forall|c: u64|
                more == less || c != t ==> #[trigger] fs_state::fetched(
                    s2.disk,
                    s2.txn.blocks,
                    bs,
                    c,
                ) == fs_state::fetched(s.disk, s.txn.blocks, bs, c)
            &&& table_seen(s2, sb, gdt, other) is Ok
            &&& table_seen(s2, sb, gdt, other)->Ok_0.len() == table_seen(
                s,
                sb,
                gdt,
                other,
            )->Ok_0.len()
            &&& record_alike(
                table_seen(s, sb, gdt, other)->Ok_0,
                table_seen(s2, sb, gdt, other)->Ok_0,
                sb,
                other,
            )
            &&& other == num && more != less ==> links_in(
                table_seen(s2, sb, gdt, other)->Ok_0,
                sb,
                other,
            ) == new_links(
                inode::inode_at(s.disk, sb, s.gdt, num)->Ok_0.links_count,
                more,
                less,
            )
            &&& more == less ==> s2 == s
            &&& other != num ==> table_seen(s2, sb, gdt, other)->Ok_0.subrange(
                inode::slot_offset(sb, other),
                inode::slot_offset(sb, other) + 128,
            ) == table_seen(s, sb, gdt, other)->Ok_0.subrange(
                inode::slot_offset(sb, other),
                inode::slot_offset(sb, other) + 128,
            )
        }),
{
    let bs = sb.block_size;
    let t = volume::table_block(gdt, sb, num);
    let o = inode::slot_offset(sb, num);
    let q = inode::slot_offset(sb, other);
    let s2 = rename::relinked(s, sb, num, more, less, seconds).0;
    inode::lemma_slot_offset(sb, num);
    inode::lemma_slot_offset(sb, other);
    pins::lemma_fetched(s, sb, volume::table_block(gdt, sb, other));
    if more != less {
        let p = inode::inode_at(s.disk, sb, s.gdt, num)->Ok_0;
        let u = fsp_impl::relink(
            if more {
                rename::one_more(p.links_count)
            } else {
                delete::one_less(p.links_count)
            },
            seconds,
        );
        let g = inode::group_of(sb, num);
        assert(0 <= g < s.gdt.len());
        assert(gdt[g].inode_table == s.gdt[g].inode_table);
        let f = fs_state::fetched(s.disk, s.txn.blocks, bs, t)->Ok_0;
        pins::lemma_fetched(s, sb, t);
        let rec = f.subrange(o, o + 128);
        let y = bytes::put(f, o, inode_write::updated_record(rec, u));
        inode_write::lemma_updated_record(rec, u);
        assert(s2 == fs_state::pin(s, t, y));
        pins::lemma_pinned(s, sb, t, y);
        assert forall|c: u64| c != t implies #[trigger] fs_state::fetched(
            s2.disk,
            s2.txn.blocks,
            bs,
            c,
        ) == fs_state::fetched(s.disk, s.txn.blocks, bs, c) by {
            writer::lemma_pin(s.txn.blocks, t, y, c);
        }
        writer::lemma_pin(s.txn.blocks, t, y, t);
        assert(y.subrange(o, o + 128) =~= inode_write::updated_record(rec, u));
        if other != num && volume::table_block(gdt, sb, other) == t {
            assert(y.subrange(q, q + 128) =~= f.subrange(q, q + 128));
        }
    }
}

/// Whether tidying changes the links of a directory.
pub open spec fn counts_links(gone: Option<(u32, bool)>, turn: bool) -> bool {
    turn || (gone matches Some((num, is_dir)) && is_dir)
}

/// Whether tidying may write block `b`.
pub open spec fn tidies(
    gdt: Seq<GroupDesc>,
    sb: Superblock,
    gone: Option<(u32, bool)>,
    turn: bool,
    src: u32,
    dst: u32,
    b: u64,
) -> bool {
    ||| gone matches Some((num, is_dir)) && freed_in(gdt, sb, num, b)
    ||| counts_links(gone, turn) && (b == volume::table_block(gdt, sb, src) || b
        == volume::table_block(gdt, sb, dst))
}

/// Whether tidying leaves the record of inode `x` alone, but for its links.
pub open spec fn bypasses(
    gdt: Seq<GroupDesc>,
    sb: Superblock,
    gone: Option<(u32, bool)>,
    turn: bool,
    src: u32,
    dst: u32,
    x: u32,
) -> bool {
    let t = volume::table_block(gdt, sb, x);
    &&& x > 0
    &&& 0 <= inode::group_of(sb, x) < gdt.len()
    &&& gone matches Some((num, is_dir)) ==> {
        &&& inode_write::apart(sb, gdt, x, num)
        &&& !volume::is_group_block(gdt, sb, t)
        &&& t != names::inode_map(gdt, sb, num)
    }
    &&& counts_links(gone, turn) ==> {
        &&& x == src || inode_write::apart(sb, gdt, x, src)
        &&& x == dst || inode_write::apart(sb, gdt, x, dst)
    }
}

/// Whether the record of inode `x` in table block `b` is that in `a`, but for its links
/// where it is one of the two directories.
pub open spec fn record_kept(
    a: Seq<u8>,
    b: Seq<u8>,
    sb: Superblock,
    src: u32,
    dst: u32,
    x: u32,
) -> bool {
    let o = inode::slot_offset(sb, x);
    &&& record_alike(a, b, sb, x)
    &&& x != src && x != dst ==> b.subrange(o, o + 128) == a.subrange(o, o + 128)
}

/// Whether the numbers of the block and of the byte that hold the record of inode `x`
/// can be written.
pub open spec fn slot_known(gdt: Seq<GroupDesc>, sb: Superblock, x: u32) -> bool {
    let d = gdt[inode::group_of(sb, x)];
    &&& d.inode_table + inode::index_of(sb, x) / inode::inodes_per_block(sb) <= u64::MAX
    &&& inode::slot_byte(sb, d, x) <= u64::MAX
}

/// The inode of a directory that can be read says what its record in the table says.
proof fn lemma_links_read(s: FsState, sb: Superblock, gdt: Seq<GroupDesc>, x: u32)
    requires
        sb.wf(),
        x > 0,
        volume::same_layout(gdt, s.gdt),
        0 <= inode::group_of(sb, x) < gdt.len(),
        slot_known(gdt, sb, x),
        block_device::block_at(s.disk, sb.block_size, volume::table_block(gdt, sb, x)) is Ok,
    ensures
        inode::inode_at(s.disk, sb, s.gdt, x) is Ok ==> inode::inode_at(
            s.disk,
            sb,
            s.gdt,
            x,
        )->Ok_0.links_count == links_in(
            block_device::block_at(
                s.disk,
                sb.block_size,
                volume::table_block(gdt, sb, x),
            )->Ok_0,
            sb,
            x,
        ),
{
    let g = inode::group_of(sb, x);
    assert(gdt[g].inode_table == s.gdt[g].inode_table);
    volume::lemma_record_in_block(s.disk, sb, s.gdt, x);
}

/// What tidying changes, as the transaction sees it.
#[verifier::rlimit(60)]
proof fn lemma_settled(
    st: FsState,
    sb: Superblock,
    gone: Option<(u32, bool)>,
    turn: bool,
    src: u32,
    dst: u32,
    seconds: Option<u64>,
    x: u32,
)
    requires
        trim::readable(st, sb),
        pins::whole(st, sb),
        forall|c: u64| #[trigger] volume::agrees(st, sb.block_size, c),
        gone matches Some((num, is_dir)) ==> placed(st.gdt, sb, num),
        src > 0,
        dst > 0,
        bypasses(st.gdt, sb, gone, turn, src, dst, x),
        block_device::block_at(
            st.disk,
            sb.block_size,
            volume::table_block(st.gdt, sb, x),
        ) is Ok,
        rename::settled(st, sb, gone, turn, src, dst, seconds).1 is Ok,
    ensures
        ({
            let bs = sb.block_size;
            let s = rename::settled(st, sb, gone, turn, src, dst, seconds).0;
            let a = block_device::block_at(st.disk, bs, volume::table_block(st.gdt, sb, x));
            &&& pins::whole(s, sb)
            &&& s.disk.len() == st.disk.len()
            &&& volume::same_layout(st.gdt, s.gdt)
            &&& forall|c: u64|
                !tidies(st.gdt, sb, gone, turn, src, dst, c) ==> #[trigger] fs_state::fetched(
                    s.disk,
                    s.txn.blocks,
                    bs,
                    c,
                ) == block_device::block_at(st.disk, bs, c)
            &&& table_seen(s, sb, st.gdt, x) is Ok
            &&& record_kept(a->Ok_0, table_seen(s, sb, st.gdt, x)->Ok_0, sb, src, dst, x)
            &&& slot_known(st.gdt, sb, x) && src != dst && x == src ==> links_in(
                table_seen(s, sb, st.gdt, x)->Ok_0,
                sb,
                x,
            ) == new_links(links_in(a->Ok_0, sb, x), false, turn)
            &&& slot_known(st.gdt, sb, x) && (src != dst || !turn) && x == dst ==> links_in(
                table_seen(s, sb, st.gdt, x)->Ok_0,
                sb,
                x,
            ) == new_links(
                links_in(a->Ok_0, sb, x),
                turn,
                gone matches Some((num, is_dir)) && is_dir,
            )
        }),
{
    let bs = sb.block_size;
    let t = volume::table_block(st.gdt, sb, x);
    let o = inode::slot_offset(sb, x);
    inode::lemma_slot_offset(sb, x);
    block_device::lemma_block_at(st.disk, bs, t);
    let a = block_device::block_at(st.disk, bs, t)->Ok_0;
    let less = gone matches Some((num, is_dir)) && is_dir;
    assert forall|c: u64| #[trigger] fs_state::fetched(st.disk, st.txn.blocks, bs, c)
        == block_device::block_at(st.disk, bs, c) by {
        assert(volume::agrees(st, bs, c));
        reveal(volume::agrees);
    }
    let s1 = match gone {
        None => st,
        Some((num, _)) => rename::released(st, sb, num, seconds).0,
    };
    if gone is Some {
        let (num, _) = gone->Some_0;
        lemma_released(st, sb, num, seconds);
        inode::lemma_slot_offset(sb, num);
        assert forall|c: u64| !freed_in(st.gdt, sb, num, c) implies #[trigger] fs_state::fetched(
            s1.disk,
            s1.txn.blocks,
            bs,
            c,
        ) == block_device::block_at(st.disk, bs, c) by {
            assert(block_device::block_at(s1.disk, bs, c) == block_device::block_at(
                s1.disk,
                bs,
                c,
            ));
            assert(volume::untouched(st, s1, bs, c));
        }
        if t == volume::table_block(st.gdt, sb, num) {
            names::lemma_record_beside(
                table_seen(s1, sb, st.gdt, x)->Ok_0,
                a,
                sb,
                num,
                x,
            );
        }
    }
    assert(table_seen(s1, sb, st.gdt, x) is Ok);
    assert(table_seen(s1, sb, st.gdt, x)->Ok_0.subrange(o, o + 128) == a.subrange(o, o + 128));
    if counts_links(gone, turn) && (x == src || x == dst) {
        if gone is Some && t == volume::table_block(st.gdt, sb, gone->Some_0.0) {
            names::lemma_record_beside(
                block_device::block_at(s1.disk, bs, t)->Ok_0,
                a,
                sb,
                gone->Some_0.0,
                x,
            );
        } else {
            assert(block_device::block_at(s1.disk, bs, t) == block_device::block_at(
                st.disk,
                bs,
                t,
            ));
        }
        if slot_known(st.gdt, sb, x) {
            lemma_links_read(s1, sb, st.gdt, x);
        }
    }
    lemma_relinked(s1, sb, st.gdt, src, false, turn, seconds, x);
    let s2 = rename::relinked(s1, sb, src, false, turn, seconds).0;
    lemma_relinked(s2, sb, st.gdt, dst, turn, less, seconds, x);
}

/// What tidying leaves alone, once it is committed.
pub proof fn lemma_tidied(
    v: VolState,
    sb: Superblock,
    gone: Option<(u32, bool)>,
    turn: bool,
    src: u32,
    dst: u32,
    seconds: Option<u64>,
    x: u32,
)
    requires
        sb.wf(),
        v.disk.len() % 512 == 0,
        allocator::laws::table_apart(v.gdt, sb),
        v.w.bs == sb.block_size,
        gone matches Some((num, is_dir)) ==> placed(v.gdt, sb, num),
        src > 0,
        dst > 0,
        bypasses(v.gdt, sb, gone, turn, src, dst, x),
        block_device::block_at(v.disk, sb.block_size, volume::table_block(v.gdt, sb, x)) is Ok,
        !v.w.blocks.contains(volume::table_block(v.gdt, sb, x)),
        rename::tidied(v, sb, gone, turn, src, dst, seconds).1 is Ok,
    ensures
        ({
            let bs = sb.block_size;
            let v2 = rename::tidied(v, sb, gone, turn, src, dst, seconds).0;
            let t = volume::table_block(v.gdt, sb, x);
            &&& v2.disk.len() == v.disk.len()
            &&& volume::same_layout(v.gdt, v2.gdt)
            &&& forall|c: u64| #![trigger block_device::block_at(v2.disk, bs, c)]
                !tidies(v.gdt, sb, gone, turn, src, dst, c) && !v.w.blocks.contains(c)
                    ==> block_device::block_at(v2.disk, bs, c) == block_device::block_at(
                    v.disk,
                    bs,
                    c,
                )
            &&& block_device::block_at(v2.disk, bs, t) is Ok
            &&& record_kept(
                block_device::block_at(v.disk, bs, t)->Ok_0,
                block_device::block_at(v2.disk, bs, t)->Ok_0,
                sb,
                src,
                dst,
                x,
            )
            &&& slot_known(v.gdt, sb, x) && src != dst && x == src ==> links_in(
                block_device::block_at(v2.disk, bs, t)->Ok_0,
                sb,
                x,
            ) == new_links(
                links_in(block_device::block_at(v.disk, bs, t)->Ok_0, sb, x),
                false,
                turn,
            )
            &&& slot_known(v.gdt, sb, x) && (src != dst || !turn) && x == dst ==> links_in(
                block_device::block_at(v2.disk, bs, t)->Ok_0,
                sb,
                x,
            ) == new_links(
                links_in(block_device::block_at(v.disk, bs, t)->Ok_0, sb, x),
                turn,
                gone matches Some((num, is_dir)) && is_dir,
            )
        }),
{
    let bs = sb.block_size;
    let v2 = rename::tidied(v, sb, gone, turn, src, dst, seconds).0;
    let t = volume::table_block(v.gdt, sb, x);
    if gone is Some || turn {
        let st = fs_context::running(v, fs_context::begun(v));
        assert forall|c: u64| #[trigger] volume::agrees(st, bs, c) by {
            reveal(volume::agrees);
        }
        assert(pins::whole(st, sb));
        lemma_settled(st, sb, gone, turn, src, dst, seconds, x);
        let s = rename::settled(st, sb, gone, turn, src, dst, seconds).0;
        names::lemma_ended(v, s, sb);
        assert(block_device::block_at(v2.disk, bs, t) == table_seen(s, sb, v.gdt, x));
        assert forall|c: u64| #![trigger block_device::block_at(v2.disk, bs, c)]
            !tidies(v.gdt, sb, gone, turn, src, dst, c) && !v.w.blocks.contains(
                c,
            ) implies block_device::block_at(v2.disk, bs, c) == block_device::block_at(
            v.disk,
            bs,
            c,
        ) by {
            assert(fs_state::fetched(s.disk, s.txn.blocks, bs, c) == block_device::block_at(
                v.disk,
                bs,
                c,
            ));
        }
    }
}

/// After an entry was moved, the links of the two directories follow: the one that a
/// directory left has one less, the one that it went to has one more, and where it
/// replaced another directory there, that one's is gone. `x` is one of the two, and `v`
/// the volume with the entry at its new place.
pub proof fn law_links_follow(
    v: VolState,
    sb: Superblock,
    gone: Option<(u32, bool)>,
    turn: bool,
    src: u32,
    dst: u32,
    seconds: Option<u64>,
    x: u32,
)
    requires
        sb.wf(),
        v.disk.len() % 512 == 0,
        allocator::laws::table_apart(v.gdt, sb),
        v.w.bs == sb.block_size,
        gone matches Some((num, is_dir)) ==> placed(v.gdt, sb, num),
        src > 0,
        dst > 0,
        turn ==> src != dst,
        x == src || x == dst,
        bypasses(v.gdt, sb, gone, turn, src, dst, x),
        slot_known(v.gdt, sb, x),
        inode::inode_at(v.disk, sb, v.gdt, x) is Ok,
        block_device::block_at(v.disk, sb.block_size, volume::table_block(v.gdt, sb, x)) is Ok,
        !v.w.blocks.contains(volume::table_block(v.gdt, sb, x)),
        rename::tidied(v, sb, gone, turn, src, dst, seconds).1 is Ok,
    ensures
        ({
            let v2 = rename::tidied(v, sb, gone, turn, src, dst, seconds).0;
            let i = inode::inode_at(v.disk, sb, v.gdt, x)->Ok_0;
            let j = inode::inode_at(v2.disk, sb, v2.gdt, x);
            &&& j is Ok
            &&& alike(j->Ok_0, i)
            &&& j->Ok_0.links_count == new_links(
                i.links_count,
                turn && x == dst,
                if x == dst {
                    gone matches Some((num, is_dir)) && is_dir
                } else {
                    turn
                },
            )
        }),
{
    let v2 = rename::tidied(v, sb, gone, turn, src, dst, seconds).0;
    lemma_tidied(v, sb, gone, turn, src, dst, seconds, x);
    volume::lemma_record_in_block(v.disk, sb, v.gdt, x);
    let g = inode::group_of(sb, x);
    assert(v.gdt[g].inode_table == v2.gdt[g].inode_table);
    volume::lemma_record_in_block(v2.disk, sb, v2.gdt, x);
}

/// What a rename left without a name is deleted: its inode cannot be read any more.
///
/// Left out is a second in which the low 32 bits of the time are all zero: the record
/// then looks like that of a live inode.
pub proof fn law_left_over_is_deleted(
    v: VolState,
    sb: Superblock,
    num: u32,
    is_dir: bool,
    turn: bool,
    src: u32,
    dst: u32,
    seconds: Option<u64>,
)
    requires
        sb.wf(),
        v.disk.len() % 512 == 0,
        allocator::laws::table_apart(v.gdt, sb),
        v.w.bs == sb.block_size,
        placed(v.gdt, sb, num),
        src > 0,
        dst > 0,
        src != num,
        dst != num,
        inode_write::apart(sb, v.gdt, num, src),
        inode_write::apart(sb, v.gdt, num, dst),
        slot_known(v.gdt, sb, num),
        !v.w.blocks.contains(volume::table_block(v.gdt, sb, num)),
        rename::tidied(v, sb, Some((num, is_dir)), turn, src, dst, seconds).1 is Ok,
        clock::stamp(seconds) != 0,
    ensures
        ({
            let v2 = rename::tidied(v, sb, Some((num, is_dir)), turn, src, dst, seconds).0;
            inode::inode_at(v2.disk, sb, v2.gdt, num) == Err::<InodeView, inode::InodeError>(
                inode::InodeError::Deleted(num),
            )
        }),
{
    let bs = sb.block_size;
    let gone = Some((num, is_dir));
    let t = volume::table_block(v.gdt, sb, num);
    let o = inode::slot_offset(sb, num);
    let v2 = rename::tidied(v, sb, gone, turn, src, dst, seconds).0;
    let st = fs_context::running(v, fs_context::begun(v));
    assert forall|c: u64| #[trigger] volume::agrees(st, bs, c) by {
        reveal(volume::agrees);
    }
    assert(pins::whole(st, sb));
    inode::lemma_slot_offset(sb, num);
    vstd::arithmetic::div_mod::lemma_div_pos_is_pos(num - 1, sb.inodes_per_group as int);
    lemma_released(st, sb, num, seconds);
    let s1 = rename::released(st, sb, num, seconds).0;
    pins::lemma_fetched(s1, sb, t);
    lemma_relinked(s1, sb, v.gdt, src, false, turn, seconds, num);
    let s2 = rename::relinked(s1, sb, src, false, turn, seconds).0;
    lemma_relinked(s2, sb, v.gdt, dst, turn, is_dir, seconds, num);
    let s = rename::relinked(s2, sb, dst, turn, is_dir, seconds).0;
    names::lemma_ended(v, s, sb);
    assert(block_device::block_at(v2.disk, bs, t) == table_seen(s, sb, v.gdt, num));
    let b1 = table_seen(s1, sb, v.gdt, num)->Ok_0;
    let b = table_seen(s, sb, v.gdt, num)->Ok_0;
    assert(b.subrange(o, o + 128) == b1.subrange(o, o + 128));
    bytes::lemma_le32_part(b1, o, o + 128, 20);
    let g = inode::group_of(sb, num);
    assert(v.gdt[g].inode_table == v2.gdt[g].inode_table);
    volume::lemma_record_in_block(v2.disk, sb, v2.gdt, num);
}

} // verus!
