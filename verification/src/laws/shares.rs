//! What dropping a link of a replaced file leaves of the directories.
use vstd::prelude::*;
use super::append;
use super::dirs;
use super::names;
use super::pins;
use super::renames;
use super::requests;
use super::tidies;
use super::tree;
use super::volume;
use crate::block_device;
use crate::dir;
use crate::dir_write;
use crate::extent;
use crate::fs_context;
use crate::fs_context::VolState;
use crate::fs_state;
use crate::fs_state::FsState;
use crate::fsp_impl;
use crate::fsp_impl::rename;
use crate::group_desc::GroupDesc;
use crate::inode;
use crate::inode::InodeView;
use crate::inode_write;
use crate::inode_write::InodeUpdate;
use crate::journal::writer;
use crate::superblock::Superblock;

verus! {

/// Whether inode `num` has a record of its own, in the block that holds the
/// directory's or in one that is nothing the directory holds.
pub open spec fn beside(st: FsState, sb: Superblock, dir_num: u32, d: nat, num: u32) -> bool {
    let t = volume::table_block(st.gdt, sb, num);
    &&& inode_write::apart(sb, st.gdt, dir_num, num)
    &&& t == volume::table_block(st.gdt, sb, dir_num) || append::foreign(st, sb, dir_num, d, t)
}

/// What a rename leaves without a name.
pub open spec fn gone(
    v: VolState,
    sb: Superblock,
    src: u32,
    from: Seq<char>,
    dst: u32,
    to: Seq<char>,
) -> Option<(u32, bool)> {
    dir_write::left_over(v.disk, sb, v.gdt, src, from, dst, to)
}

/// Whether a rename changes the links of its directories.
pub open spec fn counts(
    v: VolState,
    sb: Superblock,
    src: u32,
    from: Seq<char>,
    dst: u32,
    to: Seq<char>,
) -> bool {
    tidies::counts_links(
        gone(v, sb, src, from, dst, to),
        dir_write::turns(v.disk, sb, v.gdt, src, from, dst),
    )
}

/// Whether what a rename replaces is beside directory `dir_num`: the file that loses a
/// link, or the inode that is freed, if there is one. So are the two directories of the
/// rename, where their links change.
pub open spec fn spares(
    v: VolState,
    sb: Superblock,
    src: u32,
    from: Seq<char>,
    dst: u32,
    to: Seq<char>,
    dir_num: u32,
    d: nat,
) -> bool {
    let st = requests::at_rest(v);
    &&& dir_write::shared(v.disk, sb, v.gdt, dst, to) matches Some((num, links)) ==> beside(
        st,
        sb,
        dir_num,
        d,
        num,
    )
    &&& gone(v, sb, src, from, dst, to) matches Some((num, is_dir)) ==> {
        &&& beside(st, sb, dir_num, d, num)
        &&& append::foreign(st, sb, dir_num, d, names::inode_map(st.gdt, sb, num))
        &&& volume::table_block(st.gdt, sb, num) != names::inode_map(st.gdt, sb, num)
    }
    &&& counts(v, sb, src, from, dst, to) ==> {
        &&& dir_num == src || beside(st, sb, dir_num, d, src)
        &&& dir_num == dst || beside(st, sb, dir_num, d, dst)
    }
}

/// Whether block `b` may change beside those that the entries of a rename lie in.
pub open spec fn strays(
    v: VolState,
    sb: Superblock,
    src: u32,
    from: Seq<char>,
    dst: u32,
    to: Seq<char>,
    b: u64,
) -> bool {
    ||| is_home(v, sb, dst, to, b)
    ||| tidies::tidies(
        v.gdt,
        sb,
        gone(v, sb, src, from, dst, to),
        dir_write::turns(v.disk, sb, v.gdt, src, from, dst),
        src,
        dst,
        b,
    )
    ||| v.w.blocks.contains(b)
}

/// Such a block is nothing that the directory holds, but perhaps that of its inode.
pub proof fn lemma_strays(
    v: VolState,
    sb: Superblock,
    src: u32,
    from: Seq<char>,
    dst: u32,
    to: Seq<char>,
    dir_num: u32,
    d: nat,
    b: u64,
)
    requires
        spares(v, sb, src, from, dst, to, dir_num, d),
        strays(v, sb, src, from, dst, to, b),
    ensures
        b == volume::table_block(v.gdt, sb, dir_num) || append::foreign(
            requests::at_rest(v),
            sb,
            dir_num,
            d,
            b,
        ) || volume::is_group_block(v.gdt, sb, b) || v.w.blocks.contains(b),
{
}

/// The record of inode `x` on a device `b` is that on `a`, but for the links of the two
/// directories of a rename.
pub open spec fn keeps_record(
    v: VolState,
    sb: Superblock,
    src: u32,
    dst: u32,
    x: u32,
    a: Seq<u8>,
    b: Seq<u8>,
) -> bool {
    let t = volume::table_block(v.gdt, sb, x);
    &&& block_device::block_at(a, sb.block_size, t) is Ok
    &&& block_device::block_at(b, sb.block_size, t) is Ok
    &&& tidies::record_kept(
        block_device::block_at(a, sb.block_size, t)->Ok_0,
        block_device::block_at(b, sb.block_size, t)->Ok_0,
        sb,
        src,
        dst,
        x,
    )
}

/// The block that holds the record of that file.
pub open spec fn is_home(v: VolState, sb: Superblock, dst: u32, to: Seq<char>, b: u64) -> bool {
    dir_write::shared(v.disk, sb, v.gdt, dst, to) matches Some((num, links)) && b
        == volume::table_block(v.gdt, sb, num)
}

/// Dropping the link at the end of a transaction that left `s`. Gives a device that
/// is what the transaction saw before, and what is on the device in the end but for
/// the record of the file.
#[verifier::rlimit(60)]
pub proof fn lemma_dropped(
    v: VolState,
    s: FsState,
    sb: Superblock,
    dst: u32,
    to: Seq<char>,
) -> (a: Seq<u8>)
    requires
        sb.wf(),
        v.w.bs == sb.block_size,
        s.disk.len() % 512 == 0,
        pins::whole(s, sb),
        ({
            let file = dir_write::shared(v.disk, sb, v.gdt, dst, to);
            let (s5, r) = dir_write::dropped(s, sb, v.gdt, file);
            &&& r is Ok
            &&& fsp_impl::ended(fs_context::after(v, s5), s5.txn).1 is Ok
        }),
    ensures
        ({
            let bs = sb.block_size;
            let file = dir_write::shared(v.disk, sb, v.gdt, dst, to);
            let s5 = dir_write::dropped(s, sb, v.gdt, file).0;
            let v2 = fsp_impl::ended(fs_context::after(v, s5), s5.txn).0;
            &&& v2.gdt == s.gdt
            &&& a.len() == s.disk.len()
            &&& v2.disk.len() == s.disk.len()
            &&& volume::sees(s, bs, v.w.blocks, a)
            &&& forall|c: u64| #![trigger block_device::block_at(v2.disk, bs, c)]
                !is_home(v, sb, dst, to, c) ==> block_device::block_at(v2.disk, bs, c)
                    == block_device::block_at(a, bs, c)
            &&& file matches Some((num, links)) ==> {
                let t = volume::table_block(v.gdt, sb, num);
                !v.w.blocks.contains(t) ==> block_device::block_at(v2.disk, bs, t) is Ok
                    && block_device::block_at(a, bs, t) is Ok && volume::same_beside(
                    block_device::block_at(v2.disk, bs, t)->Ok_0,
                    block_device::block_at(a, bs, t)->Ok_0,
                    sb,
                    num,
                )
            }
            &&& forall|x: int|
                0 <= x < s.txn.blocks.len() ==> block_device::block_at(
                    s.disk,
                    bs,
                    (#[trigger] s.txn.blocks[x]).0,
                ) is Ok
        }),
{
    let bs = sb.block_size;
    let file = dir_write::shared(v.disk, sb, v.gdt, dst, to);
    let s5 = dir_write::dropped(s, sb, v.gdt, file).0;
    let v2 = fsp_impl::ended(fs_context::after(v, s5), s5.txn).0;
    if file is None {
        names::lemma_ended(v, s, sb);
        renames::lemma_pins_readable(v, s, sb);
        v2.disk
    } else {
        let (num, links) = file->Some_0;
        let t = volume::table_block(v.gdt, sb, num);
        let o = inode::slot_offset(sb, num);
        let f = fs_state::fetched(s.disk, s.txn.blocks, bs, t)->Ok_0;
        pins::lemma_fetched(s, sb, t);
        inode::lemma_slot_offset(sb, num);
        let u = InodeUpdate {
            links_count: Some((links - 1) as u16),
            ..inode_write::no_update()
        };
        inode_write::lemma_updated_record(f.subrange(o, o + 128), u);
        let y = crate::bytes::put(f, o, inode_write::updated_record(f.subrange(o, o + 128), u));
        assert(s5 == fs_state::pin(s, t, y));
        pins::lemma_pinned(s, sb, t, y);
        names::lemma_ended(v, s5, sb);
        renames::lemma_pins_readable(v, s5, sb);
        renames::lemma_still_pinned(s.txn.blocks, t, y);
        assert forall|x: int| 0 <= x < s.txn.blocks.len() implies block_device::block_at(
            s.disk,
            bs,
            (#[trigger] s.txn.blocks[x]).0,
        ) is Ok by {
            assert(s5.txn.blocks[x].0 == s.txn.blocks[x].0);
        }
        writer::lemma_pin(s.txn.blocks, t, y, t);
        writer::lemma_pin_index(s5.txn.blocks, t);
        let k = writer::pin_index(s5.txn.blocks, t);
        assert(s5.txn.blocks[k].0 == t);
        volume::lemma_readable(v2.disk, s.disk, bs, t);
        block_device::lemma_block_at(v2.disk, bs, t);
        let a = block_device::with_block(v2.disk, bs, t, f);
        block_device::lemma_block_write_read(v2.disk, bs, t, f, t);
        assert forall|c: u64| #![trigger block_device::block_at(a, bs, c)]
            !v.w.blocks.contains(c) implies block_device::block_at(a, bs, c)
            == fs_state::fetched(s.disk, s.txn.blocks, bs, c) by {
            block_device::lemma_block_write_read(v2.disk, bs, t, f, c);
            writer::lemma_pin(s.txn.blocks, t, y, c);
            if c != t {
                assert(block_device::block_at(v2.disk, bs, c) == fs_state::fetched(
                    s5.disk,
                    s5.txn.blocks,
                    bs,
                    c,
                ));
            }
        }
        assert forall|c: u64| #![trigger block_device::block_at(v2.disk, bs, c)]
            c != t implies block_device::block_at(v2.disk, bs, c) == block_device::block_at(
            a,
            bs,
            c,
        ) by {
            block_device::lemma_block_write_read(v2.disk, bs, t, f, c);
        }
        if !v.w.blocks.contains(t) {
            assert(block_device::block_at(v2.disk, bs, t) == fs_state::fetched(
                s5.disk,
                s5.txn.blocks,
                bs,
                t,
            ));
        }
        a
    }
}

/// A directory whose blocks are the same on two devices lists the same.
pub proof fn lemma_kept_list(
    s: FsState,
    sb: Superblock,
    i: InodeView,
    d: nat,
    log: Seq<u64>,
    a: Seq<u8>,
    b: Seq<u8>,
)
    requires
        dirs::sound_dir(s, sb, i, d, log),
        a.len() == s.disk.len(),
        b.len() == s.disk.len(),
        forall|c: u64| #[trigger]
            tree::within(s.disk, sb.block_size, i.block_data, d, c) ==> block_device::block_at(
                a,
                sb.block_size,
                c,
            ) == block_device::block_at(s.disk, sb.block_size, c) && block_device::block_at(
                b,
                sb.block_size,
                c,
            ) == block_device::block_at(s.disk, sb.block_size, c),
        ({
            let w = extent::tree_leaves(
                s.disk,
                sb.block_size,
                i.block_data,
                block_device::sectors(s.disk) as nat,
            )->Ok_0;
            forall|l: u64|
                (#[trigger] extent::mapped(w, l)) is Some ==> block_device::block_at(
                    a,
                    sb.block_size,
                    extent::mapped(w, l)->Some_0,
                ) == block_device::block_at(b, sb.block_size, extent::mapped(w, l)->Some_0)
        }),
    ensures
        dir::dir_entries(a, sb, i) == dir::dir_entries(b, sb, i),
{
    let bs = sb.block_size;
    let n = dir::dir_blocks(sb, i);
    let hops = block_device::sectors(s.disk) as nat;
    let w = extent::tree_leaves(s.disk, bs, i.block_data, hops)->Ok_0;
    dirs::lemma_dir_blocks(sb, i);
    dirs::lemma_places(s, sb, i, d, log, a, n);
    dirs::lemma_places(s, sb, i, d, log, b, n);
    assert forall|m: int| 0 <= m < n implies #[trigger] dirs::place(a, sb, i, m) == dirs::place(
        b,
        sb,
        i,
        m,
    ) by {
        assert(dirs::place(a, sb, i, m) == dirs::place(s.disk, sb, i, m));
        assert(dirs::place(b, sb, i, m) == dirs::place(s.disk, sb, i, m));
    }
    assert forall|m: int|
        0 <= m < n && (#[trigger] dirs::place(a, sb, i, m)) is Ok && dirs::place(
            a,
            sb,
            i,
            m,
        )->Ok_0 is Some implies block_device::block_at(
        a,
        bs,
        dirs::place(a, sb, i, m)->Ok_0->Some_0,
    ) == block_device::block_at(b, bs, dirs::place(a, sb, i, m)->Ok_0->Some_0) by {
        let p = dirs::place(a, sb, i, m)->Ok_0->Some_0;
        assert(dirs::place(a, sb, i, m) == dirs::place(s.disk, sb, i, m));
        tree::law_found_as_listed(
            s.disk,
            bs,
            i.block_data,
            d,
            0,
            tree::LOGICAL_END as int,
            hops,
            m as u64,
        );
        assert(extent::mapped(w, m as u64) == Some(p));
    }
    dirs::lemma_same_entries(a, b, sb, i, 0, n);
}

/// The inode of a directory is read the same where its record is kept, but for its
/// links.
pub proof fn lemma_inode_kept(
    v: VolState,
    sb: Superblock,
    src: u32,
    dst: u32,
    dir_num: u32,
    d: nat,
    a: Seq<u8>,
    b: Seq<u8>,
)
    requires
        volume::sound_file(requests::at_rest(v), sb, dir_num, d),
        keeps_record(v, sb, src, dst, dir_num, a, b),
        inode::inode_at(a, sb, v.gdt, dir_num) is Ok,
    ensures
        inode::inode_at(b, sb, v.gdt, dir_num) is Ok,
        tidies::alike(
            inode::inode_at(b, sb, v.gdt, dir_num)->Ok_0,
            inode::inode_at(a, sb, v.gdt, dir_num)->Ok_0,
        ),
        dir_num != src && dir_num != dst ==> inode::inode_at(b, sb, v.gdt, dir_num)
            == inode::inode_at(a, sb, v.gdt, dir_num),
{
    volume::lemma_slot_read(requests::at_rest(v), sb, dir_num);
    volume::lemma_record_in_block(a, sb, v.gdt, dir_num);
    volume::lemma_record_in_block(b, sb, v.gdt, dir_num);
}

/// What a directory lists does not depend on its links.
pub proof fn lemma_alike_lists(disk: Seq<u8>, sb: Superblock, i: InodeView, j: InodeView)
    requires
        tidies::alike(i, j),
    ensures
        dir::dir_entries(disk, sb, i) == dir::dir_entries(disk, sb, j),
{
    names::lemma_entries_of(disk, sb, i, j, 0, dir::dir_blocks(sb, i));
}

/// What is left without a name was an inode of the volume.
proof fn lemma_groups_known(
    v: VolState,
    sb: Superblock,
    src: u32,
    from: Seq<char>,
    dst: u32,
    to: Seq<char>,
)
    requires
        sb.wf(),
    ensures
        gone(v, sb, src, from, dst, to) matches Some((num, is_dir)) ==> num > 0 && 0
            <= inode::group_of(sb, num) < v.gdt.len(),
{
    if gone(v, sb, src, from, dst, to) is Some {
        let (num, _) = gone(v, sb, src, from, dst, to)->Some_0;
        vstd::arithmetic::div_mod::lemma_div_pos_is_pos(num - 1, sb.inodes_per_group as int);
    }
}

/// Descriptors that lie apart from the bitmaps do so where the groups lie as before.
proof fn lemma_apart_kept(a: Seq<GroupDesc>, b: Seq<GroupDesc>, sb: Superblock)
    requires
        crate::allocator::laws::table_apart(a, sb),
        volume::same_layout(a, b),
    ensures
        crate::allocator::laws::table_apart(b, sb),
{
    assert forall|g: int, h: int|
        #![trigger crate::allocator::block_alloc::gdt_block(sb, g), b[h]]
        0 <= g < b.len() && 0 <= h < b.len() implies crate::allocator::block_alloc::gdt_block(
        sb,
        g,
    ) != b[h].block_bitmap && crate::allocator::block_alloc::gdt_block(sb, g)
        != b[h].inode_bitmap by {
        assert(a[h].block_bitmap == b[h].block_bitmap);
    }
}

/// What the whole of a rename leaves of what its first transaction saw before a link was
/// dropped, on device `a`.
#[verifier::rlimit(60)]
pub proof fn lemma_finished(
    v: VolState,
    s: FsState,
    sb: Superblock,
    src: u32,
    from: Seq<char>,
    dst: u32,
    to: Seq<char>,
    seconds: Option<u64>,
    x: u32,
    d: nat,
    a: Seq<u8>,
)
    requires
        volume::sound_file(requests::at_rest(v), sb, x, d),
        append::clear_of(requests::at_rest(v), sb, x, d, v.w.blocks),
        spares(v, sb, src, from, dst, to, x, d),
        v.w.bs == sb.block_size,
        src > 0,
        dst > 0,
        0 <= inode::group_of(sb, src) < v.gdt.len(),
        0 <= inode::group_of(sb, dst) < v.gdt.len(),
        s.disk.len() == v.disk.len(),
        volume::same_layout(v.gdt, s.gdt),
        rename::moved(v, sb, src, from, dst, to, seconds).1 is Ok,
        ({
            let bs = sb.block_size;
            let file = dir_write::shared(v.disk, sb, v.gdt, dst, to);
            let s5 = dir_write::dropped(s, sb, v.gdt, file).0;
            let v1 = rename::shifted(v, sb, src, from, dst, to).0;
            &&& rename::shifted(v, sb, src, from, dst, to) == fsp_impl::ended(
                fs_context::after(v, s5),
                s5.txn,
            )
            &&& v1.gdt == s.gdt
            &&& a.len() == s.disk.len()
            &&& v1.disk.len() == s.disk.len()
            &&& forall|c: u64| #![trigger block_device::block_at(v1.disk, bs, c)]
                !is_home(v, sb, dst, to, c) ==> block_device::block_at(v1.disk, bs, c)
                    == block_device::block_at(a, bs, c)
            &&& file matches Some((num, links)) ==> {
                let t = volume::table_block(v.gdt, sb, num);
                !v.w.blocks.contains(t) ==> block_device::block_at(v1.disk, bs, t) is Ok
                    && block_device::block_at(a, bs, t) is Ok && volume::same_beside(
                    block_device::block_at(v1.disk, bs, t)->Ok_0,
                    block_device::block_at(a, bs, t)->Ok_0,
                    sb,
                    num,
                )
            }
        }),
    ensures
        ({
            let bs = sb.block_size;
            let v2 = rename::moved(v, sb, src, from, dst, to, seconds).0;
            &&& v2.disk.len() == v.disk.len()
            &&& volume::same_layout(v.gdt, v2.gdt)
            &&& forall|c: u64| #![trigger block_device::block_at(v2.disk, bs, c)]
                !strays(v, sb, src, from, dst, to, c) ==> block_device::block_at(v2.disk, bs, c)
                    == block_device::block_at(a, bs, c)
            &&& keeps_record(v, sb, src, dst, x, a, v2.disk)
        }),
{
    let bs = sb.block_size;
    let st = requests::at_rest(v);
    let t = volume::table_block(v.gdt, sb, x);
    let o = inode::slot_offset(sb, x);
    let v1 = rename::shifted(v, sb, src, from, dst, to).0;
    let s1 = requests::at_rest(v1);
    let left = gone(v, sb, src, from, dst, to);
    let turn = dir_write::turns(v.disk, sb, v.gdt, src, from, dst);
    let s5 = dir_write::dropped(s, sb, v.gdt, dir_write::shared(v.disk, sb, v.gdt, dst, to)).0;
    crate::journal::laws::law_committed_len(
        writer::LogState { disk: s5.disk, w: v.w },
        s5.txn,
    );
    volume::lemma_slot_read(st, sb, x);
    if v.w.blocks.contains(t) {
        assert(append::bystander(st, sb, x, d, t));
    }
    volume::lemma_readable(a, v.disk, bs, t);
    volume::lemma_readable(v1.disk, v.disk, bs, t);
    block_device::lemma_block_at(a, bs, t);
    block_device::lemma_block_at(v1.disk, bs, t);
    let ta = block_device::block_at(a, bs, t)->Ok_0;
    let t1 = block_device::block_at(v1.disk, bs, t)->Ok_0;
    if is_home(v, sb, dst, to, t) {
        let (num, links) = dir_write::shared(v.disk, sb, v.gdt, dst, to)->Some_0;
        inode::lemma_slot_offset(sb, num);
        names::lemma_record_beside(t1, ta, sb, num, x);
    }
    assert(t1.subrange(o, o + 128) == ta.subrange(o, o + 128));
    assert forall|c: u64| #[trigger] volume::is_group_block(v1.gdt, sb, c)
        == volume::is_group_block(v.gdt, sb, c) by {
        super::trim::lemma_same_groups(st, s1, sb, c);
    }
    assert forall|y: u32| 0 <= inode::group_of(sb, y) < v.gdt.len() implies
        #[trigger] volume::table_block(v1.gdt, sb, y) == volume::table_block(v.gdt, sb, y)
        && names::inode_map(v1.gdt, sb, y) == names::inode_map(v.gdt, sb, y) by {
        let g = inode::group_of(sb, y);
        assert(v.gdt[g].inode_table == v1.gdt[g].inode_table);
    }
    lemma_groups_known(v, sb, src, from, dst, to);
    lemma_apart_kept(v.gdt, v1.gdt, sb);
    tidies::lemma_tidied(v1, sb, left, turn, src, dst, seconds, x);
    let v2 = rename::moved(v, sb, src, from, dst, to, seconds).0;
    assert(volume::same_layout(v.gdt, v2.gdt)) by {
        assert forall|g: int| #![trigger v.gdt[g]] #![trigger v2.gdt[g]]
            0 <= g < v.gdt.len() implies v.gdt[g].block_bitmap == v2.gdt[g].block_bitmap
            && v.gdt[g].inode_bitmap == v2.gdt[g].inode_bitmap && v.gdt[g].inode_table
            == v2.gdt[g].inode_table by {
            assert(v1.gdt[g].block_bitmap == v2.gdt[g].block_bitmap);
            assert(v.gdt[g].block_bitmap == v1.gdt[g].block_bitmap);
        }
    }
    assert forall|c: u64| #![trigger block_device::block_at(v2.disk, bs, c)]
        !strays(v, sb, src, from, dst, to, c) implies block_device::block_at(v2.disk, bs, c)
        == block_device::block_at(a, bs, c) by {
        assert(!tidies::tidies(v1.gdt, sb, left, turn, src, dst, c));
        assert(block_device::block_at(v1.disk, bs, c) == block_device::block_at(a, bs, c));
    }
}

} // verus!
