//! What a request on one file leaves of the others.
use vstd::prelude::*;
use super::append;
use super::data;
use super::dirs;
use super::names;
use super::pins;
use super::requests;
use super::tree;
use super::trim;
use super::volume;
use crate::allocator::inode_alloc;
use crate::block_device;
use crate::bytes;
use crate::clock;
use crate::dir;
use crate::dir_write;
use crate::extent;
use crate::extent_write;
use crate::file;
use crate::file_write;
use crate::fs_context;
use crate::fs_context::VolState;
use crate::fs_state;
use crate::fs_state::FsState;
use crate::fsp_impl;
use crate::fsp_impl::create;
use crate::fsp_impl::delete;
use crate::fsp_impl::read_file;
use crate::fsp_impl::set_file_size;
use crate::fsp_impl::write_file;
use crate::inode;
use crate::inode::InodeView;
use crate::inode_write;
use crate::journal::writer;
use crate::superblock::Superblock;

verus! {

/// Whether file `other` has nothing in common with file `num`, nor with the blocks
/// that a commit changes: neither a block of its tree or of its data, nor its
/// record.
pub open spec fn unrelated(
    v: VolState,
    sb: Superblock,
    num: u32,
    d: nat,
    other: u32,
    dn: nat,
) -> bool {
    let st = requests::at_rest(v);
    let e = volume::extents_now(st, sb, other);
    let t = volume::table_block(st.gdt, sb, other);
    &&& volume::sound_file(st, sb, other, dn)
    &&& append::clear_of(st, sb, other, dn, requests::shared_blocks(v, sb))
    &&& inode_write::apart(sb, st.gdt, other, num)
    &&& t == volume::table_block(st.gdt, sb, num) || append::foreign(st, sb, num, d, t)
    &&& forall|b: u64| #[trigger]
        volume::node_block(st, sb, other, dn, b) ==> append::foreign(st, sb, num, d, b)
    &&& forall|l: u64|
        (#[trigger] extent::mapped(e, l)) is Some ==> append::foreign(
            st,
            sb,
            num,
            d,
            extent::mapped(e, l)->Some_0,
        )
}

/// Whether a committed request changed nothing that is used by something else than
/// file `num`.
pub open spec fn only_changed(v: VolState, v2: VolState, sb: Superblock, num: u32, d: nat) -> bool {
    let st = requests::at_rest(v);
    &&& volume::same_layout(st.gdt, v2.gdt)
    &&& v2.disk.len() == v.disk.len()
    &&& volume::record_changed_on(st, v2.disk, sb, num)
    &&& forall|b: u64| #[trigger]
        append::foreign(st, sb, num, d, b) && !requests::shared_blocks(v, sb).contains(b)
            ==> block_device::block_at(v2.disk, sb.block_size, b) == block_device::block_at(
            v.disk,
            sb.block_size,
            b,
        )
}

/// A file that is unrelated to what changed is as it was.
#[verifier::rlimit(100)]
pub proof fn lemma_other_stays(
    v: VolState,
    v2: VolState,
    sb: Superblock,
    num: u32,
    d: nat,
    other: u32,
    dn: nat,
    offset: u64,
    len: int,
)
    requires
        volume::sound_file(requests::at_rest(v), sb, num, d),
        unrelated(v, sb, num, d, other, dn),
        only_changed(v, v2, sb, num, d),
        0 <= len,
    ensures
        inode::inode_at(v2.disk, sb, v2.gdt, other) == inode::inode_at(v.disk, sb, v.gdt, other),
        read_file::read_out(v2, sb, other, offset, len) == read_file::read_out(
            v,
            sb,
            other,
            offset,
            len,
        ),
        dir::dir_entries(v2.disk, sb, volume::inode_now(requests::at_rest(v), sb, other))
            == dir::dir_entries(v.disk, sb, volume::inode_now(requests::at_rest(v), sb, other)),
{
    let bs = sb.block_size;
    let st = requests::at_rest(v);
    let log = requests::shared_blocks(v, sb);
    let e = volume::extents_now(st, sb, other);
    let t = volume::table_block(st.gdt, sb, other);
    let g = inode::group_of(sb, other);
    volume::lemma_slot_read(st, sb, other);
    volume::lemma_slot_read(st, sb, num);
    vstd::arithmetic::div_mod::lemma_div_pos_is_pos(other - 1, sb.inodes_per_group as int);
    assert(st.gdt[g].inode_table == v2.gdt[g].inode_table);
    if log.contains(t) {
        assert(append::bystander(st, sb, other, dn, t));
    }
    volume::lemma_readable(v2.disk, st.disk, bs, t);
    volume::lemma_record_in_block(st.disk, sb, st.gdt, other);
    volume::lemma_record_in_block(v2.disk, sb, v2.gdt, other);
    let x = block_device::block_at(st.disk, bs, t)->Ok_0;
    let y = block_device::block_at(v2.disk, bs, t)->Ok_0;
    let o = inode::slot_offset(sb, other);
    if t == volume::table_block(st.gdt, sb, num) {
        names::lemma_record_beside(y, x, sb, num, other);
    } else {
        assert(append::foreign(st, sb, num, d, t));
    }
    assert(y.subrange(o, o + 128) == x.subrange(o, o + 128));
    assert forall|b: u64| #[trigger] names::held(st, sb, other, dn, b) && b != t implies
        block_device::block_at(v2.disk, bs, b) == block_device::block_at(v.disk, bs, b) by {
        if volume::node_block(st, sb, other, dn, b) {
            assert(append::foreign(st, sb, num, d, b));
            if log.contains(b) {
                assert(append::bystander(st, sb, other, dn, b));
            }
        } else {
            let l = choose|l: u64| #[trigger] extent::mapped(e, l) == Some(b);
            assert(extent::mapped(e, l) is Some);
            assert(append::foreign(st, sb, num, d, b));
            if log.contains(b) {
                assert(append::unmapped(e, b));
            }
        }
    }
    lemma_held_stays(v, v2, sb, other, dn, offset, len);
}

/// Whether two inodes agree in what a read of the file depends on.
pub open spec fn same_contents(a: InodeView, b: InodeView) -> bool {
    a.mode == b.mode && a.size == b.size && a.flags == b.flags && a.block_data == b.block_data
}

/// A file whose inode says the same of its contents, and whose blocks did not change, is
/// as it was.
#[verifier::rlimit(100)]
pub proof fn lemma_held_stays(
    v: VolState,
    v2: VolState,
    sb: Superblock,
    num: u32,
    d: nat,
    offset: u64,
    len: int,
)
    requires
        volume::sound_file(requests::at_rest(v), sb, num, d),
        v2.disk.len() == v.disk.len(),
        inode::inode_at(v2.disk, sb, v2.gdt, num) is Ok,
        same_contents(
            inode::inode_at(v2.disk, sb, v2.gdt, num)->Ok_0,
            inode::inode_at(v.disk, sb, v.gdt, num)->Ok_0,
        ),
        forall|b: u64| #[trigger]
            names::held(requests::at_rest(v), sb, num, d, b) && b != volume::table_block(
                v.gdt,
                sb,
                num,
            ) ==> block_device::block_at(v2.disk, sb.block_size, b) == block_device::block_at(
                v.disk,
                sb.block_size,
                b,
            ),
        0 <= len,
    ensures
        read_file::read_out(v2, sb, num, offset, len) == read_file::read_out(
            v,
            sb,
            num,
            offset,
            len,
        ),
        dir::dir_entries(v2.disk, sb, volume::inode_now(requests::at_rest(v), sb, num))
            == dir::dir_entries(v.disk, sb, volume::inode_now(requests::at_rest(v), sb, num)),
{
    let bs = sb.block_size;
    let st = requests::at_rest(v);
    let e = volume::extents_now(st, sb, num);
    volume::lemma_extents(st, sb, num, d);
    assert forall|b: u64| #[trigger]
        tree::within(
            st.disk,
            bs,
            volume::inode_now(st, sb, num).block_data,
            d,
            b,
        ) implies block_device::block_at(v2.disk, bs, b) == block_device::block_at(
        st.disk,
        bs,
        b,
    ) by {
        assert(volume::node_block(st, sb, num, d, b));
        assert(volume::kept_apart(st, sb, num, b));
        assert(names::held(st, sb, num, d, b));
    }
    volume::lemma_tree_elsewhere(st, sb, num, d, v2.disk, 0);
    tree::law_resolved_as_mapped(e, 0, tree::LOGICAL_END as int, 0);
    assert forall|l: int| 0 <= l <= u64::MAX implies #[trigger] file::lblock_bytes(
        v2.disk,
        bs,
        e,
        l,
    ) == file::lblock_bytes(v.disk, bs, e, l) by {
        tree::law_resolved_as_mapped(e, 0, tree::LOGICAL_END as int, l as u64);
        if extent::mapped(e, l as u64) is Some {
            let b = extent::mapped(e, l as u64)->Some_0;
            assert(volume::kept_apart(st, sb, num, b));
            assert(names::held(st, sb, num, d, b));
        }
    }
    lemma_same_reading(v, v2, sb, num, e, offset, len);
    names::lemma_same_listing(
        st,
        FsState { disk: v2.disk, ..st },
        sb,
        num,
        d,
        Seq::empty(),
        volume::table_block(st.gdt, sb, num),
    );
}

/// A file whose blocks read the same is read the same.
proof fn lemma_same_reading(
    v: VolState,
    v2: VolState,
    sb: Superblock,
    num: u32,
    e: Seq<extent::ExtentLeaf>,
    offset: u64,
    len: int,
)
    requires
        sb.wf(),
        0 <= len,
        inode::inode_at(v2.disk, sb, v2.gdt, num) is Ok,
        inode::inode_at(v.disk, sb, v.gdt, num) is Ok,
        same_contents(
            inode::inode_at(v2.disk, sb, v2.gdt, num)->Ok_0,
            inode::inode_at(v.disk, sb, v.gdt, num)->Ok_0,
        ),
        ({
            let i = inode::inode_at(v.disk, sb, v.gdt, num)->Ok_0;
            &&& i.uses_extents()
            &&& extent::file_leaves(v.disk, sb, true, i.block_data) == Ok::<
                Seq<extent::ExtentLeaf>,
                extent::ExtentError,
            >(e)
            &&& extent::file_leaves(v2.disk, sb, true, i.block_data) == Ok::<
                Seq<extent::ExtentLeaf>,
                extent::ExtentError,
            >(e)
        }),
        extent::in_order(e) == e,
        forall|l: int|
            0 <= l <= u64::MAX ==> #[trigger] file::lblock_bytes(v2.disk, sb.block_size, e, l)
                == file::lblock_bytes(v.disk, sb.block_size, e, l),
    ensures
        read_file::read_out(v2, sb, num, offset, len) == read_file::read_out(
            v,
            sb,
            num,
            offset,
            len,
        ),
{
    let bs = sb.block_size;
    let i = inode::inode_at(v.disk, sb, v.gdt, num)->Ok_0;
    let n = if offset >= i.size {
        0
    } else if len < i.size - offset {
        len
    } else {
        i.size - offset
    };
    assert forall|l: int| 0 <= l && l * bs < offset + n implies #[trigger] file::lblock_bytes(
        v2.disk,
        bs,
        e,
        l,
    ) == file::lblock_bytes(v.disk, bs, e, l) by {
        assert(l <= l * bs) by (nonlinear_arith)
            requires
                0 <= l,
                bs >= 1,
        ;
    }
    requests::lemma_same_fault(v2.disk, e, v.disk, e, bs, offset as int, offset + n);
    let out = read_file::read_out(v2, sb, num, offset, len);
    let was = read_file::read_out(v, sb, num, offset, len);
    if out is Ok {
        assert forall|k: int| 0 <= k < n implies out->Ok_0[k] == was->Ok_0[k] by {
            let l = (offset + k) / (bs as int);
            vstd::arithmetic::div_mod::lemma_div_pos_is_pos(offset + k, bs as int);
            vstd::arithmetic::div_mod::lemma_div_is_ordered_by_denominator(
                offset + k,
                1,
                bs as int,
            );
            assert(file::lblock_bytes(v2.disk, bs, e, l) == file::lblock_bytes(v.disk, bs, e, l));
        }
        assert(out->Ok_0 =~= was->Ok_0);
    }
}

/// A write request on one file leaves every unrelated file as it was: its inode,
/// what a read of it gives, and what it lists.
#[verifier::rlimit(100)]
pub proof fn law_written_leaves_others(
    v: VolState,
    sb: Superblock,
    num: u32,
    d: nat,
    bytes_in: Seq<u8>,
    at: u64,
    to_eof: bool,
    constrained: bool,
    seconds: Option<u64>,
    other: u32,
    dn: nat,
    offset: u64,
    len: int,
)
    requires
        bytes_in.len() > 0,
        volume::inode_now(requests::at_rest(v), sb, num).is_file(),
        requests::well_placed(
            v,
            sb,
            num,
            d,
            requests::write_start(
                volume::inode_now(requests::at_rest(v), sb, num),
                at,
                to_eof,
            ) as int,
            bytes_in.len() as int,
        ),
        !constrained || requests::write_start(
            volume::inode_now(requests::at_rest(v), sb, num),
            at,
            to_eof,
        ) + bytes_in.len() <= volume::inode_now(requests::at_rest(v), sb, num).size,
        write_file::written(
            v,
            sb,
            false,
            true,
            num,
            bytes_in,
            at,
            to_eof,
            constrained,
            seconds,
        ).1 is Ok,
        unrelated(v, sb, num, d, other, dn),
        0 <= len,
    ensures
        ({
            let v2 = write_file::written(
                v,
                sb,
                false,
                true,
                num,
                bytes_in,
                at,
                to_eof,
                constrained,
                seconds,
            ).0;
            let i = volume::inode_now(requests::at_rest(v), sb, other);
            &&& inode::inode_at(v2.disk, sb, v2.gdt, other) == inode::inode_at(
                v.disk,
                sb,
                v.gdt,
                other,
            )
            &&& read_file::read_out(v2, sb, other, offset, len) == read_file::read_out(
                v,
                sb,
                other,
                offset,
                len,
            )
            &&& dir::dir_entries(v2.disk, sb, i) == dir::dir_entries(v.disk, sb, i)
        }),
{
    let bs = sb.block_size;
    let st = requests::at_rest(v);
    let log = requests::shared_blocks(v, sb);
    let i = volume::inode_now(st, sb, num);
    let from = requests::write_start(i, at, to_eof);
    requests::lemma_at_rest(v, sb, num);
    let s1 = file_write::file_written(st, sb, num, i, from as int, bytes_in).0;
    let d2 = data::law_write_then_read(st, sb, num, d, from as int, bytes_in, log);
    pins::law_written_whole(st, sb, num, i, from as int, bytes_in);
    let size = block_device::max(from + bytes_in.len(), i.size as int) as u64;
    let u = fsp_impl::resize(size, seconds);
    pins::lemma_updated(s1, sb, num, u);
    let s2 = fsp_impl::touched(s1, sb, num, u).0;
    requests::lemma_closed(v, s2, sb, seconds);
    let v2 = write_file::written(
        v,
        sb,
        false,
        true,
        num,
        bytes_in,
        at,
        to_eof,
        constrained,
        seconds,
    ).0;
    let t = volume::table_block(s1.gdt, sb, num);
    if log.contains(t) {
        assert(append::bystander(s1, sb, num, d2, t));
    }
    volume::lemma_update_shows(s1, sb, s1.gdt, num, u, log, v2.disk);
    lemma_only_changed(v, s1, v2, sb, num, d);
    lemma_other_stays(v, v2, sb, num, d, other, dn, offset, len);
}

/// What a transaction that was committed after an update of an inode changed.
proof fn lemma_only_changed(v: VolState, s: FsState, v2: VolState, sb: Superblock, num: u32, d: nat)
    requires
        v2.gdt == s.gdt,
        v2.disk.len() == v.disk.len(),
        volume::same_layout(requests::at_rest(v).gdt, s.gdt),
        data::left_alone(requests::at_rest(v), s, sb, num, d),
        volume::record_changed_on(s, v2.disk, sb, num),
        forall|b: u64| #![trigger block_device::block_at(v2.disk, sb.block_size, b)]
            b != volume::table_block(s.gdt, sb, num) && !requests::shared_blocks(v, sb).contains(b)
                ==> block_device::block_at(v2.disk, sb.block_size, b) == fs_state::fetched(
                s.disk,
                s.txn.blocks,
                sb.block_size,
                b,
            ),
    ensures
        only_changed(v, v2, sb, num, d),
{
    let bs = sb.block_size;
    let st = requests::at_rest(v);
    let log = requests::shared_blocks(v, sb);
    assert forall|b: u64| #[trigger] append::foreign(st, sb, num, d, b) && !log.contains(
        b,
    ) implies block_device::block_at(v2.disk, bs, b) == block_device::block_at(v.disk, bs, b) by {
        assert(append::bystander(st, sb, num, d, b));
        assert(volume::agrees(st, bs, b)) by {
            reveal(volume::agrees);
        }
        assert(volume::agrees(s, bs, b));
        reveal(volume::agrees);
    }
}

/// A request that sets the size of one file leaves every unrelated file as it was:
/// its inode, what a read of it gives, and what it lists.
///
/// A file that gets shorter and reaches the last logical block there can be is
/// left out, as it is of cutting a tree.
#[verifier::rlimit(100)]
pub proof fn law_resized_leaves_others(
    v: VolState,
    sb: Superblock,
    num: u32,
    d: nat,
    new_size: u64,
    seconds: Option<u64>,
    other: u32,
    dn: nat,
    offset: u64,
    len: int,
)
    requires
        volume::inode_now(requests::at_rest(v), sb, num).is_file(),
        volume::sound_file(requests::at_rest(v), sb, num, d),
        append::clear_of(requests::at_rest(v), sb, num, d, requests::shared_blocks(v, sb)),
        v.w.bs == sb.block_size,
        new_size < volume::inode_now(requests::at_rest(v), sb, num).size ==> {
            &&& tree::end_of(volume::extents_now(requests::at_rest(v), sb, num)) <= u32::MAX
            &&& requests::blocks_of(sb, new_size) <= u32::MAX
        },
        set_file_size::resized(v, sb, false, true, num, new_size, seconds).1 is Ok,
        unrelated(v, sb, num, d, other, dn),
        0 <= len,
    ensures
        ({
            let v2 = set_file_size::resized(v, sb, false, true, num, new_size, seconds).0;
            let i = volume::inode_now(requests::at_rest(v), sb, other);
            &&& inode::inode_at(v2.disk, sb, v2.gdt, other) == inode::inode_at(
                v.disk,
                sb,
                v.gdt,
                other,
            )
            &&& read_file::read_out(v2, sb, other, offset, len) == read_file::read_out(
                v,
                sb,
                other,
                offset,
                len,
            )
            &&& dir::dir_entries(v2.disk, sb, i) == dir::dir_entries(v.disk, sb, i)
        }),
{
    let bs = sb.block_size;
    let st = requests::at_rest(v);
    let log = requests::shared_blocks(v, sb);
    let i = volume::inode_now(st, sb, num);
    let t = volume::table_block(st.gdt, sb, num);
    let u = fsp_impl::resize(new_size, seconds);
    requests::lemma_at_rest(v, sb, num);
    volume::lemma_slot_read(st, sb, num);
    assert forall|b: u64| #[trigger] volume::agrees(st, bs, b) by {
        reveal(volume::agrees);
    }
    let keep = requests::blocks_of(sb, new_size);
    let s1 = if new_size < i.size {
        assert(bytes::ceil_div(new_size as int, bs as int) % 0x1_0000_0000 == keep);
        let s1 = extent_write::truncated(st, sb, num, keep as u32).0;
        let _ = trim::lemma_truncated_on(st, sb, num, d, keep as u32, s1.disk);
        pins::law_truncated_whole(st, sb, num, keep as u32);
        s1
    } else {
        st
    };
    let g = inode::group_of(sb, num);
    assert(s1.gdt[g].inode_table == st.gdt[g].inode_table);
    assert(volume::table_block(s1.gdt, sb, num) == t);
    assert(data::left_alone(st, s1, sb, num, d)) by {
        assert forall|b: u64| #[trigger] append::foreign(st, sb, num, d, b) implies
            block_device::block_at(s1.disk, bs, b) == block_device::block_at(st.disk, bs, b)
            && volume::agrees(s1, bs, b) by {
            assert(append::bystander(st, sb, num, d, b));
            assert(volume::agrees(st, bs, b));
            assert(volume::untouched(st, s1, bs, b));
            reveal(volume::agrees);
        }
    }
    assert(volume::agrees(s1, bs, t)) by {
        reveal(volume::agrees);
    }
    volume::lemma_readable(s1.disk, st.disk, bs, t);
    pins::lemma_updated(s1, sb, num, u);
    let s2 = fsp_impl::touched(s1, sb, num, u).0;
    requests::lemma_closed(v, s2, sb, seconds);
    let v2 = set_file_size::resized(v, sb, false, true, num, new_size, seconds).0;
    if log.contains(t) {
        assert(append::bystander(st, sb, num, d, t));
    }
    volume::lemma_update_shows(s1, sb, s1.gdt, num, u, log, v2.disk);
    lemma_only_changed(v, s1, v2, sb, num, d);
    lemma_other_stays(v, v2, sb, num, d, other, dn, offset, len);
}

/// What a file holds is not the journal's.
proof fn lemma_off_log(v: VolState, sb: Superblock, num: u32, d: nat, b: u64)
    requires
        volume::sound_file(requests::at_rest(v), sb, num, d),
        append::clear_of(requests::at_rest(v), sb, num, d, requests::shared_blocks(v, sb)),
        names::held(requests::at_rest(v), sb, num, d, b),
    ensures
        !v.w.blocks.contains(b),
{
    let st = requests::at_rest(v);
    let log = requests::shared_blocks(v, sb);
    if v.w.blocks.contains(b) {
        let k = choose|k: int| 0 <= k < v.w.blocks.len() && v.w.blocks[k] == b;
        assert(log[k] == b);
        assert(log.contains(b));
        assert(append::bystander(st, sb, num, d, b));
    }
}

/// What a file holds but for its record's block is nothing that an unrelated file
/// holds.
proof fn lemma_unrelated(
    v: VolState,
    sb: Superblock,
    num: u32,
    d: nat,
    other: u32,
    dn: nat,
    b: u64,
)
    requires
        unrelated(v, sb, num, d, other, dn),
        names::held(requests::at_rest(v), sb, other, dn, b),
        b != volume::table_block(v.gdt, sb, other),
    ensures
        append::foreign(requests::at_rest(v), sb, num, d, b),
{
    let st = requests::at_rest(v);
    let e = volume::extents_now(st, sb, other);
    if !volume::node_block(st, sb, other, dn, b) {
        let l = choose|l: u64| #[trigger] extent::mapped(e, l) == Some(b);
        assert(extent::mapped(e, l) is Some);
    }
}

/// A request that creates a file leaves every file as it was that is unrelated to
/// the directory: its inode, what a read of it gives, and what it lists.
#[verifier::rlimit(100)]
pub proof fn law_created_leaves_others(
    v: VolState,
    sb: Superblock,
    file_name: Seq<char>,
    parent_path: Seq<char>,
    parent: u32,
    d: nat,
    name: Seq<char>,
    seconds: Option<u64>,
    other: u32,
    dn: nat,
    offset: u64,
    len: int,
)
    requires
        create::parted(fsp_impl::volume_path(file_name)) == Some((parent_path, name)),
        fs_context::resolved(v.disk, sb, v.gdt, parent_path) is Ok,
        fs_context::resolved(v.disk, sb, v.gdt, parent_path)->Ok_0 == parent,
        names::may_grow(requests::at_rest(v), sb, parent, d),
        append::clear_of(requests::at_rest(v), sb, parent, d, v.w.blocks),
        v.w.bs == sb.block_size,
        names::maps_foreign(requests::at_rest(v), sb, parent, d),
        create::created(v, sb, false, file_name, false, seconds).1 is Ok,
        names::record_apart(
            requests::at_rest(v),
            sb,
            parent,
            d,
            create::created(v, sb, false, file_name, false, seconds).1->Ok_0.0,
        ),
        unrelated(v, sb, parent, d, other, dn),
        names::maps_foreign(requests::at_rest(v), sb, other, dn),
        names::record_apart(
            requests::at_rest(v),
            sb,
            other,
            dn,
            create::created(v, sb, false, file_name, false, seconds).1->Ok_0.0,
        ),
        0 <= len,
    ensures
        ({
            let v2 = create::created(v, sb, false, file_name, false, seconds).0;
            let i = volume::inode_now(requests::at_rest(v), sb, other);
            &&& inode::inode_at(v2.disk, sb, v2.gdt, other) == inode::inode_at(
                v.disk,
                sb,
                v.gdt,
                other,
            )
            &&& read_file::read_out(v2, sb, other, offset, len) == read_file::read_out(
                v,
                sb,
                other,
                offset,
                len,
            )
            &&& dir::dir_entries(v2.disk, sb, i) == dir::dir_entries(v.disk, sb, i)
        }),
{
    let bs = sb.block_size;
    let st = requests::at_rest(v);
    let log = v.w.blocks;
    requests::lemma_at_rest(v, sb, parent);
    assert forall|c: u64| #[trigger] volume::agrees(st, bs, c) by {
        reveal(volume::agrees);
    }
    let now = clock::stamp(seconds);
    let hint = inode::group_of(sb, parent);
    let (s1, r1) = inode_alloc::allocated(st, sb, false, hint);
    let num = r1->Ok_0;
    volume::lemma_slot_read(st, sb, parent);
    volume::lemma_slot_read(st, sb, other);
    names::lemma_inode_made(st, sb, false, hint, parent, d, create::FILE_MODE, now);
    names::lemma_inode_made(st, sb, false, hint, other, dn, create::FILE_MODE, now);
    let s2 = inode_alloc::initialised(s1, sb, num, create::FILE_MODE, 0, 0, now).0;
    let t = volume::table_block(st.gdt, sb, num);
    let to = volume::table_block(st.gdt, sb, other);
    let tp = volume::table_block(st.gdt, sb, parent);
    names::lemma_still_ready(st, s2, sb, parent, d, log, t);
    names::lemma_same_listing(st, s2, sb, parent, d, log, t);
    let ft = dir::dir_file_type::REG_FILE;
    let s3 = dir_write::added(s2, sb, s2.gdt, parent, name, num, ft).0;
    pins::law_added_whole(s2, sb, parent, name, num, ft);
    let v2 = create::created(v, sb, false, file_name, false, seconds).0;
    assert(v2 == fsp_impl::ended(fs_context::after(v, s3), s3.txn).0);
    names::lemma_ended(v, s3, sb);
    let _ = dirs::law_added(s2, sb, parent, d, name, num, ft, log, s2.disk, v2.disk);
    assert forall|b: u64| append::foreign(st, sb, parent, d, b) && !log.contains(b) implies
        #[trigger] block_device::block_at(v2.disk, bs, b) == block_device::block_at(
        s2.disk,
        bs,
        b,
    ) by {
        assert(append::bystander(st, sb, parent, d, b));
        assert(append::bystander(s2, sb, parent, d, b));
        assert(append::foreign(s2, sb, parent, d, b));
        assert(volume::agrees(s2, bs, b));
        reveal(volume::agrees);
    }
    assert forall|b: u64| #[trigger] names::held(st, sb, other, dn, b) && b != to implies
        block_device::block_at(v2.disk, bs, b) == block_device::block_at(v.disk, bs, b) by {
        lemma_unrelated(v, sb, parent, d, other, dn, b);
        lemma_off_log(v, sb, other, dn, b);
        assert(b != t);
        assert(block_device::block_at(v2.disk, bs, b) == block_device::block_at(s2.disk, bs, b));
    }
    lemma_off_log(v, sb, other, dn, to);
    let g = inode::group_of(sb, other);
    let gp = inode::group_of(sb, parent);
    assert(st.gdt[g].inode_table == s2.gdt[g].inode_table);
    assert(s2.gdt[g].inode_table == v2.gdt[g].inode_table);
    assert(st.gdt[gp].inode_table == s2.gdt[gp].inode_table);
    volume::lemma_readable(s2.disk, st.disk, bs, to);
    volume::lemma_readable(v2.disk, st.disk, bs, to);
    volume::lemma_record_in_block(s2.disk, sb, s2.gdt, other);
    volume::lemma_record_in_block(v2.disk, sb, v2.gdt, other);
    if to == tp {
        names::lemma_record_beside(
            block_device::block_at(v2.disk, bs, to)->Ok_0,
            block_device::block_at(s2.disk, bs, to)->Ok_0,
            sb,
            parent,
            other,
        );
    } else {
        assert(append::foreign(st, sb, parent, d, to));
        assert(block_device::block_at(v2.disk, bs, to) == block_device::block_at(
            s2.disk,
            bs,
            to,
        ));
    }
    lemma_held_stays(v, v2, sb, other, dn, offset, len);
}

/// A request that deletes a file or directory leaves every file as it was that is
/// unrelated to that and to its directory: its inode, what a read of it gives, and
/// what it lists.
///
/// A file that reaches the last logical block there can be is left out, as it is of
/// cutting a tree.
#[verifier::rlimit(100)]
pub proof fn law_deleted_leaves_others(
    v: VolState,
    sb: Superblock,
    parent_path: Seq<char>,
    parent: u32,
    d: nat,
    name: Seq<char>,
    num: u32,
    dn: nat,
    is_dir: bool,
    seconds: Option<u64>,
    other: u32,
    dx: nat,
    offset: u64,
    len: int,
)
    requires
        fs_context::resolved(v.disk, sb, v.gdt, parent_path) is Ok,
        fs_context::resolved(v.disk, sb, v.gdt, parent_path)->Ok_0 == parent,
        volume::sound_file(requests::at_rest(v), sb, parent, d),
        volume::sound_file(requests::at_rest(v), sb, num, dn),
        append::clear_of(requests::at_rest(v), sb, parent, d, v.w.blocks),
        names::out_of_reach(requests::at_rest(v), sb, parent, d, num, dn),
        v.w.bs == sb.block_size,
        tree::end_of(volume::extents_now(requests::at_rest(v), sb, num)) <= u32::MAX,
        delete::deleted(v, sb, parent_path, name, num, is_dir, seconds).1 is Ok,
        unrelated(v, sb, num, dn, other, dx),
        unrelated(v, sb, parent, d, other, dx),
        append::foreign(
            requests::at_rest(v),
            sb,
            other,
            dx,
            names::inode_map(v.gdt, sb, num),
        ),
        0 <= len,
    ensures
        ({
            let v2 = delete::deleted(v, sb, parent_path, name, num, is_dir, seconds).0;
            let i = volume::inode_now(requests::at_rest(v), sb, other);
            &&& inode::inode_at(v2.disk, sb, v2.gdt, other) == inode::inode_at(
                v.disk,
                sb,
                v.gdt,
                other,
            )
            &&& read_file::read_out(v2, sb, other, offset, len) == read_file::read_out(
                v,
                sb,
                other,
                offset,
                len,
            )
            &&& dir::dir_entries(v2.disk, sb, i) == dir::dir_entries(v.disk, sb, i)
        }),
{
    let bs = sb.block_size;
    let st = requests::at_rest(v);
    let log = v.w.blocks;
    let i = volume::inode_now(st, sb, parent);
    let n = dir::dir_blocks(sb, i);
    let t = volume::table_block(st.gdt, sb, num);
    let tp = volume::table_block(st.gdt, sb, parent);
    let to = volume::table_block(st.gdt, sb, other);
    let op = inode::slot_offset(sb, parent);
    let m = names::inode_map(st.gdt, sb, num);
    let links = delete::last_links(is_dir, volume::inode_now(st, sb, num).links_count);
    requests::lemma_at_rest(v, sb, parent);
    dirs::lemma_sound_dir(st, sb, parent, d, log);
    let (l, data) = dirs::lemma_removed_where(st, sb, i, name, 0, n);
    let p = dirs::place(st.disk, sb, i, l)->Ok_0->Some_0;
    let s1 = dir_write::removed(st, sb, st.gdt, parent, name).0;
    assert(s1 == fs_state::pin(st, p, data));
    volume::lemma_extents(st, sb, parent, d);
    dirs::lemma_dir_blocks(sb, i);
    data::lemma_found(st, sb, parent, d, l as u64);
    assert(extent::mapped(volume::extents_now(st, sb, parent), l as u64) == Some(p));
    assert(append::bystander(st, sb, num, dn, p));
    assert(volume::kept_apart(st, sb, parent, p));
    names::lemma_pin_beside(st, sb, num, dn, p, data);
    pins::lemma_pinned(st, sb, p, data);
    assert(append::bystander(s1, sb, num, dn, m));
    names::lemma_unlinked(s1, sb, num, dn, links, seconds);
    let s2 = delete::unlinked(s1, sb, num, links, seconds).0;
    names::lemma_dropped_from(st, s1, s2, sb, parent, d, num, dn, p, data);
    let y = fs_state::fetched(s2.disk, s2.txn.blocks, bs, tp)->Ok_0;
    let rec = y.subrange(op, op + 128);
    let links2 = inode::inode_at(s2.disk, sb, s2.gdt, parent)->Ok_0.links_count;
    let u = fsp_impl::relink(delete::one_less(links2), seconds);
    let z = bytes::put(y, op, inode_write::updated_record(rec, u));
    inode_write::lemma_updated_record(rec, u);
    let s3 = if is_dir {
        fsp_impl::touched(s2, sb, parent, u).0
    } else {
        s2
    };
    pins::lemma_updated(s2, sb, parent, u);
    let v2 = delete::deleted(v, sb, parent_path, name, num, is_dir, seconds).0;
    assert(v2 == fsp_impl::ended(fs_context::after(v, s3), s3.txn).0);
    names::lemma_ended(v, s3, sb);
    assert(is_dir ==> s3 == fs_state::pin(s2, tp, z));
    volume::lemma_slot_read(st, sb, other);
    volume::lemma_slot_read(st, sb, num);
    // What the transaction sees of a block that neither file holds.
    assert forall|b: u64|
        append::foreign(st, sb, num, dn, b) && append::foreign(st, sb, parent, d, b) && b
            != m implies #[trigger] fs_state::fetched(s3.disk, s3.txn.blocks, bs, b)
        == block_device::block_at(st.disk, bs, b) by {
        assert(append::bystander(s1, sb, num, dn, b));
        writer::lemma_pin(st.txn.blocks, p, data, b);
        assert(volume::untouched(s1, s2, bs, b)) by {
            assert(block_device::block_at(s2.disk, bs, b) == block_device::block_at(
                s2.disk,
                bs,
                b,
            ));
        }
        if is_dir {
            writer::lemma_pin(s2.txn.blocks, tp, z, b);
        }
    }
    assert forall|b: u64| #[trigger] names::held(st, sb, other, dx, b) && b != to implies
        block_device::block_at(v2.disk, bs, b) == block_device::block_at(v.disk, bs, b) by {
        lemma_unrelated(v, sb, num, dn, other, dx, b);
        lemma_unrelated(v, sb, parent, d, other, dx, b);
        lemma_off_log(v, sb, other, dx, b);
    }
    lemma_off_log(v, sb, other, dx, to);
    lemma_record_kept(st, s1, s2, s3, sb, parent, d, num, dn, other, p, data, is_dir, z);
    let g = inode::group_of(sb, other);
    assert(st.gdt[g].inode_table == s3.gdt[g].inode_table);
    volume::lemma_record_in_block(v2.disk, sb, v2.gdt, other);
    lemma_held_stays(v, v2, sb, other, dx, offset, len);
}

/// The record of a third inode after a deletion.
#[verifier::rlimit(100)]
proof fn lemma_record_kept(
    st: FsState,
    s1: FsState,
    s2: FsState,
    s3: FsState,
    sb: Superblock,
    parent: u32,
    d: nat,
    num: u32,
    dn: nat,
    other: u32,
    p: u64,
    data: Seq<u8>,
    is_dir: bool,
    z: Seq<u8>,
)
    requires
        volume::sound_file(st, sb, parent, d),
        volume::sound_file(st, sb, num, dn),
        volume::sound_slot(st, sb, other),
        s1 == fs_state::pin(st, p, data),
        s3 == (if is_dir {
            fs_state::pin(s2, volume::table_block(st.gdt, sb, parent), z)
        } else {
            s2
        }),
        !append::unmapped(volume::extents_now(st, sb, parent), p),
        names::dropped(s1, s2, sb, num, dn),
        forall|b: u64| #[trigger]
            append::bystander(s1, sb, num, dn, b) == append::bystander(st, sb, num, dn, b),
        append::bystander(st, sb, num, dn, p),
        volume::kept_apart(st, sb, parent, p),
        inode_write::apart(sb, st.gdt, other, num),
        inode_write::apart(sb, st.gdt, other, parent),
        ({
            let t = volume::table_block(st.gdt, sb, num);
            let tp = volume::table_block(st.gdt, sb, parent);
            let to = volume::table_block(st.gdt, sb, other);
            let y = fs_state::fetched(s2.disk, s2.txn.blocks, sb.block_size, tp);
            &&& to == t || append::foreign(st, sb, num, dn, to)
            &&& to == tp || append::foreign(st, sb, parent, d, to)
            &&& to != names::inode_map(st.gdt, sb, num)
            &&& y is Ok
            &&& y->Ok_0.len() == sb.block_size
            &&& is_dir ==> z.len() == sb.block_size && volume::same_beside(
                z,
                y->Ok_0,
                sb,
                parent,
            )
        }),
    ensures
        ({
            let to = volume::table_block(st.gdt, sb, other);
            let o = inode::slot_offset(sb, other);
            let x = fs_state::fetched(s3.disk, s3.txn.blocks, sb.block_size, to);
            let w = block_device::block_at(st.disk, sb.block_size, to)->Ok_0;
            &&& x is Ok
            &&& x->Ok_0.subrange(o, o + 128) == w.subrange(o, o + 128)
        }),
{
    let bs = sb.block_size;
    let t = volume::table_block(st.gdt, sb, num);
    let tp = volume::table_block(st.gdt, sb, parent);
    let to = volume::table_block(st.gdt, sb, other);
    let o = inode::slot_offset(sb, other);
    volume::lemma_slot_read(st, sb, other);
    volume::lemma_slot_read(st, sb, num);
    reveal(volume::agrees);
    let w = block_device::block_at(st.disk, bs, to)->Ok_0;
    let y = fs_state::fetched(s2.disk, s2.txn.blocks, bs, to);
    assert(p != to) by {
        if to != tp {
            assert(append::unmapped(volume::extents_now(st, sb, parent), to));
        }
    }
    writer::lemma_pin(st.txn.blocks, p, data, to);
    writer::lemma_pin(st.txn.blocks, p, data, t);
    assert(y is Ok && y->Ok_0.len() == bs && y->Ok_0.subrange(o, o + 128) == w.subrange(
        o,
        o + 128,
    )) by {
        if to == t {
            names::lemma_record_beside(y->Ok_0, w, sb, num, other);
        } else {
            assert(append::bystander(s1, sb, num, dn, to));
            assert(block_device::block_at(s2.disk, bs, to) == block_device::block_at(
                s2.disk,
                bs,
                to,
            ));
            assert(volume::untouched(s1, s2, bs, to));
        }
    }
    if is_dir {
        writer::lemma_pin(s2.txn.blocks, tp, z, to);
        if to == tp {
            names::lemma_record_beside(z, y->Ok_0, sb, parent, other);
        }
    }
}

} // verus!
