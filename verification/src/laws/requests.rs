//! What requests promise of one another, once they are committed.
use vstd::prelude::*;
use super::append;
use super::data;
use super::pins;
use super::tree;
use super::trim;
use super::volume;
use crate::block_device;
use crate::bytes;
use crate::extent;
use crate::extent::ExtentLeaf;
use crate::extent_write;
use crate::file;
use crate::file_write;
use crate::fs_context;
use crate::fs_context::VolState;
use crate::fs_state;
use crate::fs_state::FsState;
use crate::fsp_impl;
use crate::fsp_impl::read_file;
use crate::fsp_impl::set_file_size;
use crate::fsp_impl::write_file;
use crate::fsp_impl::Status;
use crate::inode;
use crate::inode::InodeView;
use crate::inode_write;
use crate::journal;
use crate::journal::writer;
use crate::superblock::Superblock;
use crate::superblock_write;

verus! {

/// A volume with an empty transaction.
pub open spec fn at_rest(v: VolState) -> FsState {
    fs_context::running(v, fs_context::begun(v))
}

/// The blocks that a commit changes beside those of a request: the journal's, and
/// the superblock's.
pub open spec fn shared_blocks(v: VolState, sb: Superblock) -> Seq<u64> {
    v.w.blocks.push(superblock_write::home_block(sb))
}

/// At rest, the transaction sees what is on the device.
pub proof fn lemma_at_rest(v: VolState, sb: Superblock, num: u32)
    requires
        sb.wf(),
    ensures
        pins::whole(at_rest(v), sb),
        data::data_agrees(at_rest(v), sb, num),
{
    let st = at_rest(v);
    assert forall|b: u64| #[trigger] volume::agrees(st, sb.block_size, b) by {
        reveal(volume::agrees);
    }
}

/// What a request that is committed leaves on the device: what its transaction
/// saw before the counts went into the superblock.
pub proof fn lemma_closed(v: VolState, s: FsState, sb: Superblock, seconds: Option<u64>)
    requires
        v.w.bs == sb.block_size,
        s.disk.len() % 512 == 0,
        pins::whole(s, sb),
        fsp_impl::recounted(s, sb, seconds).1 is Ok,
        ({
            let s2 = fsp_impl::recounted(s, sb, seconds).0;
            fs_context::closed(fs_context::after(v, s2), s2.txn).1
        }),
    ensures
        ({
            let s2 = fsp_impl::recounted(s, sb, seconds).0;
            let v2 = fs_context::closed(fs_context::after(v, s2), s2.txn).0;
            &&& v2.gdt == s.gdt
            &&& volume::sees(s, sb.block_size, shared_blocks(v, sb), v2.disk)
        }),
{
    let bs = sb.block_size;
    let home = superblock_write::home_block(sb);
    let b = block_device::block_at(s.disk, bs, home)->Ok_0;
    let data = superblock_write::recounted(
        b,
        superblock_write::home_offset(sb),
        bytes::sat64(fsp_impl::free_blocks(s.gdt)),
        extent_write::sat32(fsp_impl::free_inodes(s.gdt)),
        fsp_impl::stamp(seconds),
    );
    block_device::lemma_block_at(s.disk, bs, home);
    assert(data.len() == bs) by {
        broadcast use crate::bytes::lemma_put_len;

    }
    pins::lemma_pinned(s, sb, home, data);
    let s2 = fsp_impl::recounted(s, sb, seconds).0;
    assert(s2 == fs_state::pin(s, home, data));
    let log = shared_blocks(v, sb);
    let ls = writer::LogState { disk: s.disk, w: v.w };
    let disk = writer::committed(ls, s2.txn).0.disk;
    assert forall|c: u64| #![trigger block_device::block_at(disk, bs, c)]
        !log.contains(c) implies block_device::block_at(disk, bs, c) == fs_state::fetched(
        s.disk,
        s.txn.blocks,
        bs,
        c,
    ) by {
        assert(!v.w.blocks.contains(c)) by {
            if v.w.blocks.contains(c) {
                let k = choose|k: int| 0 <= k < v.w.blocks.len() && v.w.blocks[k] == c;
                assert(log[k] == c);
            }
        }
        assert(c != home) by {
            assert(log[log.len() - 1] == home);
        }
        journal::laws::law_committed_shows(ls, s2.txn, c);
        writer::lemma_pin(s.txn.blocks, home, data, c);
    }
    journal::laws::law_committed_len(ls, s2.txn);
}

/// Blocks that read the same give the same fault.
pub proof fn lemma_same_fault(
    a: Seq<u8>,
    v: Seq<ExtentLeaf>,
    b: Seq<u8>,
    w: Seq<ExtentLeaf>,
    bs: u32,
    from: int,
    to: int,
)
    requires
        bs > 0,
        0 <= from,
        to <= u64::MAX,
        forall|l: int|
            0 <= l && l * bs < to ==> #[trigger] file::lblock_bytes(a, bs, v, l)
                == file::lblock_bytes(b, bs, w, l),
    ensures
        file::read_fault(a, bs, v, from, to) == file::read_fault(b, bs, w, from, to),
    decreases to + 0x1_0000_0000 - from,
{
    if from < to {
        let n = bs as int;
        let l = from / n;
        vstd::arithmetic::div_mod::lemma_mod_bound(from, n);
        vstd::arithmetic::div_mod::lemma_div_pos_is_pos(from, n);
        vstd::arithmetic::div_mod::lemma_fundamental_div_mod(from, n);
        assert(l * bs == n * l) by (nonlinear_arith)
            requires
                n == bs as int,
        ;
        assert(file::lblock_bytes(a, bs, v, l) == file::lblock_bytes(b, bs, w, l));
        lemma_same_fault(a, v, b, w, bs, from + n - from % n, to);
    }
}

/// Where the write of a request starts.
pub open spec fn write_start(i: InodeView, offset: u64, to_eof: bool) -> u64 {
    if to_eof {
        i.size
    } else {
        offset
    }
}

/// Whether a write request is one whose data a later read gives back: the file
/// is sound and shares no block with the journal or the superblock, and the write
/// stays within the logical blocks there can be.
pub open spec fn well_placed(
    v: VolState,
    sb: Superblock,
    num: u32,
    d: nat,
    at: int,
    len: int,
) -> bool {
    let st = at_rest(v);
    &&& volume::sound_file(st, sb, num, d)
    &&& append::clear_of(st, sb, num, d, shared_blocks(v, sb))
    &&& v.w.bs == sb.block_size
    &&& at + len <= tree::LOGICAL_END * sb.block_size
}

/// A read request gives back what a write request wrote, once that was answered,
/// and every other byte of the file is as it was.
#[verifier::rlimit(100)]
pub proof fn law_written_is_read(
    v: VolState,
    sb: Superblock,
    num: u32,
    d: nat,
    data: Seq<u8>,
    offset: u64,
    to_eof: bool,
    constrained: bool,
    seconds: Option<u64>,
)
    requires
        data.len() > 0,
        volume::inode_now(at_rest(v), sb, num).is_file(),
        well_placed(
            v,
            sb,
            num,
            d,
            write_start(volume::inode_now(at_rest(v), sb, num), offset, to_eof) as int,
            data.len() as int,
        ),
        !constrained || write_start(volume::inode_now(at_rest(v), sb, num), offset, to_eof)
            + data.len() <= volume::inode_now(at_rest(v), sb, num).size,
        write_file::written(
            v,
            sb,
            false,
            true,
            num,
            data,
            offset,
            to_eof,
            constrained,
            seconds,
        ).1 is Ok,
    ensures
        ({
            let i = volume::inode_now(at_rest(v), sb, num);
            let at = write_start(i, offset, to_eof);
            let (v2, r) = write_file::written(
                v,
                sb,
                false,
                true,
                num,
                data,
                offset,
                to_eof,
                constrained,
                seconds,
            );
            let i2 = r->Ok_0.1;
            &&& read_file::read_out(v2, sb, num, at, data.len() as int) == Ok::<
                Seq<u8>,
                Status,
            >(data)
            &&& i2.size == block_device::max(at + data.len(), i.size as int)
            &&& forall|o: int|
                0 <= o <= u64::MAX && !(at <= o < at + data.len())
                    ==> #[trigger] file::file_byte(
                    v2.disk,
                    sb.block_size,
                    extent::in_order(
                        extent::file_leaves(v2.disk, sb, true, i2.block_data)->Ok_0,
                    ),
                    o,
                ) == file::file_byte(
                    v.disk,
                    sb.block_size,
                    extent::in_order(volume::extents_now(at_rest(v), sb, num)),
                    o,
                )
        }),
{
    let bs = sb.block_size;
    let st = at_rest(v);
    let log = shared_blocks(v, sb);
    let i = volume::inode_now(st, sb, num);
    let at = write_start(i, offset, to_eof);
    let len = data.len() as int;
    lemma_at_rest(v, sb, num);
    let s1 = file_write::file_written(st, sb, num, i, at as int, data).0;
    let d2 = data::law_write_then_read(st, sb, num, d, at as int, data, log);
    pins::law_written_whole(st, sb, num, i, at as int, data);
    let size = block_device::max(at + len, i.size as int) as u64;
    let u = fsp_impl::resize(size, seconds);
    pins::lemma_updated(s1, sb, num, u);
    let s2 = fsp_impl::touched(s1, sb, num, u).0;
    lemma_closed(v, s2, sb, seconds);
    let (v2, r) = write_file::written(
        v,
        sb,
        false,
        true,
        num,
        data,
        offset,
        to_eof,
        constrained,
        seconds,
    );
    let t = volume::table_block(s1.gdt, sb, num);
    if log.contains(t) {
        assert(append::bystander(s1, sb, num, d2, t));
    }
    assert forall|b: u64| #[trigger] volume::node_block(s1, sb, num, d2, b) implies !log.contains(
        b,
    ) by {
        if log.contains(b) {
            assert(append::bystander(s1, sb, num, d2, b));
        }
    }
    volume::lemma_update_shows(s1, sb, s1.gdt, num, u, log, v2.disk);
    volume::lemma_updated_block(s1, sb, s1.gdt, num, d2, u, log, v2.disk, 0);
    lemma_read_back(s1, sb, num, d2, log, v2.disk);
    let w = volume::extents_now(s1, sb, num);
    let i2 = inode_write::updated_inode(volume::inode_now(s1, sb, num), u);
    assert(r->Ok_0.1 == i2);
    volume::lemma_extents(s1, sb, num, d2);
    tree::law_resolved_as_mapped(w, 0, tree::LOGICAL_END as int, 0);
    assert forall|l: int| 0 <= l && l * bs < at + len implies #[trigger] file::lblock_bytes(
        v2.disk,
        bs,
        w,
        l,
    ) == file::lblock_bytes(s1.disk, bs, w, l) by {
        assert(l <= l * bs) by (nonlinear_arith)
            requires
                0 <= l,
                bs >= 1,
        ;
    }
    lemma_same_fault(v2.disk, w, s1.disk, w, bs, at as int, at + len);
    let out = read_file::read_out(v2, sb, num, at, len);
    assert forall|o: int| 0 <= o <= u64::MAX implies #[trigger] file::file_byte(
        v2.disk,
        bs,
        w,
        o,
    ) == file::file_byte(s1.disk, bs, w, o) by {
        let l = o / (bs as int);
        vstd::arithmetic::div_mod::lemma_div_pos_is_pos(o, bs as int);
        vstd::arithmetic::div_mod::lemma_div_is_ordered_by_denominator(o, 1, bs as int);
        assert(file::lblock_bytes(v2.disk, bs, w, l) == file::lblock_bytes(s1.disk, bs, w, l));
    }
    assert(out is Ok);
    assert(out->Ok_0 =~= data) by {
        assert forall|k: int| 0 <= k < len implies out->Ok_0[k] == data[k] by {
            assert(file::file_byte(v2.disk, bs, w, at + k) == file::file_byte(
                s1.disk,
                bs,
                w,
                at + k,
            ));
        }
    }
}

/// How many blocks a file of a given size spans.
pub open spec fn blocks_of(sb: Superblock, size: u64) -> int {
    bytes::ceil_div(size as int, sb.block_size as int)
}

/// Whether byte `o` of a file is kept when its size changes.
pub open spec fn is_kept(sb: Superblock, old_size: u64, new_size: u64, o: int) -> bool {
    new_size >= old_size || o / (sb.block_size as int) < blocks_of(sb, new_size)
}

/// A request that sets the size of a file sets it, keeps the bytes of the blocks
/// that the new size spans, and reads as a hole behind those where the file got
/// shorter. What both sizes cover is read as before.
///
/// A file that gets shorter and reaches the last logical block there can be is
/// left out, as it is of cutting a tree.
#[verifier::rlimit(100)]
pub proof fn law_resized_is_read(
    v: VolState,
    sb: Superblock,
    num: u32,
    d: nat,
    new_size: u64,
    seconds: Option<u64>,
    offset: u64,
    len: int,
)
    requires
        volume::inode_now(at_rest(v), sb, num).is_file(),
        volume::sound_file(at_rest(v), sb, num, d),
        append::clear_of(at_rest(v), sb, num, d, shared_blocks(v, sb)),
        v.w.bs == sb.block_size,
        new_size < volume::inode_now(at_rest(v), sb, num).size ==> {
            &&& tree::end_of(volume::extents_now(at_rest(v), sb, num)) <= u32::MAX
            &&& blocks_of(sb, new_size) <= u32::MAX
        },
        set_file_size::resized(v, sb, false, true, num, new_size, seconds).1 is Ok,
        0 <= len,
        offset + len <= new_size,
        offset + len <= volume::inode_now(at_rest(v), sb, num).size,
    ensures
        ({
            let i = volume::inode_now(at_rest(v), sb, num);
            let (v2, r) = set_file_size::resized(v, sb, false, true, num, new_size, seconds);
            let i2 = r->Ok_0;
            &&& i2.size == new_size
            &&& read_file::read_out(v2, sb, num, offset, len) == read_file::read_out(
                v,
                sb,
                num,
                offset,
                len,
            )
            &&& forall|o: int|
                0 <= o <= u64::MAX ==> #[trigger] file::file_byte(
                    v2.disk,
                    sb.block_size,
                    extent::in_order(
                        extent::file_leaves(v2.disk, sb, true, i2.block_data)->Ok_0,
                    ),
                    o,
                ) == (if is_kept(sb, i.size, new_size, o) {
                    file::file_byte(
                        v.disk,
                        sb.block_size,
                        extent::in_order(volume::extents_now(at_rest(v), sb, num)),
                        o,
                    )
                } else {
                    0
                })
        }),
{
    let bs = sb.block_size;
    let st = at_rest(v);
    let log = shared_blocks(v, sb);
    let i = volume::inode_now(st, sb, num);
    let e = volume::extents_now(st, sb, num);
    lemma_at_rest(v, sb, num);
    volume::lemma_extents(st, sb, num, d);
    tree::law_resolved_as_mapped(e, 0, tree::LOGICAL_END as int, 0);
    let (v2, r) = set_file_size::resized(v, sb, false, true, num, new_size, seconds);
    let u = fsp_impl::resize(new_size, seconds);
    let t = volume::table_block(st.gdt, sb, num);
    if log.contains(t) {
        assert(append::bystander(st, sb, num, d, t));
    }
    assert forall|b: u64| #[trigger] volume::node_block(st, sb, num, d, b) implies !log.contains(
        b,
    ) by {
        if log.contains(b) {
            assert(append::bystander(st, sb, num, d, b));
        }
    }
    let keep = blocks_of(sb, new_size);
    let w = if new_size < i.size {
        lemma_cut_shows(v, sb, num, d, keep as u32, new_size, seconds)
    } else {
        pins::lemma_updated(st, sb, num, u);
        let s2 = fsp_impl::touched(st, sb, num, u).0;
        lemma_closed(v, s2, sb, seconds);
        volume::lemma_update_shows(st, sb, st.gdt, num, u, log, v2.disk);
        volume::lemma_updated_block(st, sb, st.gdt, num, d, u, log, v2.disk, 0);
        lemma_read_back(st, sb, num, d, log, v2.disk);
        e
    };
    let i2 = r->Ok_0;
    assert(extent::file_leaves(v2.disk, sb, true, i2.block_data)->Ok_0 == w);
    assert forall|o: int| 0 <= o <= u64::MAX implies #[trigger] file::file_byte(v2.disk, bs, w, o)
        == (if is_kept(sb, i.size, new_size, o) {
        file::file_byte(v.disk, bs, e, o)
    } else {
        0
    }) by {
        let l = o / (bs as int);
        vstd::arithmetic::div_mod::lemma_div_pos_is_pos(o, bs as int);
        vstd::arithmetic::div_mod::lemma_mod_bound(o, bs as int);
        vstd::arithmetic::div_mod::lemma_div_is_ordered_by_denominator(o, 1, bs as int);
        if new_size >= i.size {
            assert(file::lblock_bytes(v2.disk, bs, w, l) == file::lblock_bytes(v.disk, bs, e, l));
        } else if l < keep {
            assert(file::lblock_bytes(v2.disk, bs, w, l) == file::lblock_bytes(v.disk, bs, e, l));
        } else {
            assert(file::lblock_bytes(v2.disk, bs, w, l) == Ok::<
                Seq<u8>,
                block_device::BlockDeviceError,
            >(bytes::zeros(bs as int)));
        }
    }
    lemma_spans(sb, new_size);
    assert forall|l: int| 0 <= l && l * bs < offset + len implies #[trigger] file::lblock_bytes(
        v2.disk,
        bs,
        w,
        l,
    ) == file::lblock_bytes(v.disk, bs, e, l) by {
        assert(l <= l * bs) by (nonlinear_arith)
            requires
                0 <= l,
                bs >= 1,
        ;
        if new_size < i.size {
            assert(l < keep) by (nonlinear_arith)
                requires
                    l * bs < new_size,
                    new_size <= keep * bs,
                    bs >= 1,
            ;
        }
    }
    lemma_same_fault(v2.disk, w, v.disk, e, bs, offset as int, offset + len);
    let out = read_file::read_out(v2, sb, num, offset, len);
    let was = read_file::read_out(v, sb, num, offset, len);
    if offset <= i64::MAX && out is Ok {
        assert(out->Ok_0 =~= was->Ok_0) by {
            assert forall|k: int| 0 <= k < len implies out->Ok_0[k] == was->Ok_0[k] by {
                let o = offset + k;
                let l = o / (bs as int);
                vstd::arithmetic::div_mod::lemma_fundamental_div_mod(o, bs as int);
                vstd::arithmetic::div_mod::lemma_mod_bound(o, bs as int);
                if new_size < i.size {
                    assert(l < keep) by (nonlinear_arith)
                        requires
                            bs * l <= o,
                            o < new_size,
                            new_size <= keep * bs,
                            bs >= 1,
                    ;
                }
                assert(is_kept(sb, i.size, new_size, o));
                assert(file::file_byte(v2.disk, bs, w, o) == file::file_byte(v.disk, bs, e, o));
            }
        }
    }
}

/// The blocks that a size spans hold it.
proof fn lemma_spans(sb: Superblock, size: u64)
    requires
        sb.wf(),
    ensures
        0 <= blocks_of(sb, size),
        size <= blocks_of(sb, size) * sb.block_size,
{
    let n = sb.block_size as int;
    let q = size as int / n;
    vstd::arithmetic::div_mod::lemma_fundamental_div_mod(size as int, n);
    vstd::arithmetic::div_mod::lemma_mod_bound(size as int, n);
    vstd::arithmetic::div_mod::lemma_div_pos_is_pos(size as int, n);
    assert(n * q == q * n && (q + 1) * n == q * n + n) by (nonlinear_arith);
}

/// What a file that was cut short looks like once that is committed. Gives its
/// extents.
#[verifier::rlimit(100)]
proof fn lemma_cut_shows(
    v: VolState,
    sb: Superblock,
    num: u32,
    d: nat,
    keep: u32,
    new_size: u64,
    seconds: Option<u64>,
) -> (w: Seq<ExtentLeaf>)
    requires
        volume::inode_now(at_rest(v), sb, num).is_file(),
        volume::sound_file(at_rest(v), sb, num, d),
        append::clear_of(at_rest(v), sb, num, d, shared_blocks(v, sb)),
        v.w.bs == sb.block_size,
        new_size < volume::inode_now(at_rest(v), sb, num).size,
        tree::end_of(volume::extents_now(at_rest(v), sb, num)) <= u32::MAX,
        keep == blocks_of(sb, new_size),
        set_file_size::resized(v, sb, false, true, num, new_size, seconds).1 is Ok,
    ensures
        ({
            let st = at_rest(v);
            let i = volume::inode_now(st, sb, num);
            let e = volume::extents_now(st, sb, num);
            let (v2, r) = set_file_size::resized(v, sb, false, true, num, new_size, seconds);
            let i2 = r->Ok_0;
            &&& inode::inode_at(v2.disk, sb, v2.gdt, num) == Ok::<InodeView, inode::InodeError>(i2)
            &&& i2 == inode_write::updated_inode(
                InodeView { block_data: i2.block_data, ..i },
                fsp_impl::resize(new_size, seconds),
            )
            &&& extent::file_leaves(v2.disk, sb, true, i2.block_data) == Ok::<
                Seq<ExtentLeaf>,
                extent::ExtentError,
            >(w)
            &&& extent::in_order(w) == w
            &&& forall|l: int|
                0 <= l <= u64::MAX ==> #[trigger] file::lblock_bytes(v2.disk, sb.block_size, w, l)
                    == (if l < keep {
                    file::lblock_bytes(v.disk, sb.block_size, e, l)
                } else {
                    Ok(bytes::zeros(sb.block_size as int))
                })
        }),
{
    let bs = sb.block_size;
    let st = at_rest(v);
    let log = shared_blocks(v, sb);
    let i = volume::inode_now(st, sb, num);
    let e = volume::extents_now(st, sb, num);
    let t = volume::table_block(st.gdt, sb, num);
    let u = fsp_impl::resize(new_size, seconds);
    lemma_at_rest(v, sb, num);
    volume::lemma_slot_read(st, sb, num);
    assert(bytes::ceil_div(new_size as int, bs as int) % 0x1_0000_0000 == keep);
    let s1 = extent_write::truncated(st, sb, num, keep).0;
    let _ = trim::lemma_truncated_on(st, sb, num, d, keep, s1.disk);
    pins::law_truncated_whole(st, sb, num, keep);
    assert forall|b: u64| #[trigger] volume::agrees(s1, bs, b) by {
        reveal(volume::agrees);
        assert(volume::agrees(st, bs, b));
    }
    let g = inode::group_of(sb, num);
    assert(s1.gdt[g].inode_table == st.gdt[g].inode_table);
    assert(volume::table_block(s1.gdt, sb, num) == t);
    volume::lemma_readable(s1.disk, st.disk, bs, t);
    pins::lemma_updated(s1, sb, num, u);
    let s2 = fsp_impl::touched(s1, sb, num, u).0;
    lemma_closed(v, s2, sb, seconds);
    let (v2, r) = set_file_size::resized(v, sb, false, true, num, new_size, seconds);
    if log.contains(t) {
        assert(append::bystander(st, sb, num, d, t));
    }
    volume::lemma_update_shows(s1, sb, s1.gdt, num, u, log, v2.disk);
    assert forall|c: u64| #[trigger] volume::node_block(st, sb, num, d, c) implies
        block_device::block_at(v2.disk, bs, c) == block_device::block_at(s1.disk, bs, c) by {
        if log.contains(c) {
            assert(append::bystander(st, sb, num, d, c));
        }
        assert(volume::kept_apart(st, sb, num, c));
        assert(volume::agrees(s1, bs, c));
        reveal(volume::agrees);
    }
    let w = trim::lemma_truncated_on(st, sb, num, d, keep, v2.disk);
    volume::lemma_extents(st, sb, num, d);
    tree::law_resolved_as_mapped(w, 0, tree::end_of(e), 0);
    assert forall|l: int| 0 <= l <= u64::MAX implies #[trigger] file::lblock_bytes(
        v2.disk,
        bs,
        w,
        l,
    ) == (if l < keep {
        file::lblock_bytes(v.disk, bs, e, l)
    } else {
        Ok(bytes::zeros(bs as int))
    }) by {
        tree::law_resolved_as_mapped(w, 0, tree::end_of(e), l as u64);
        tree::law_resolved_as_mapped(e, 0, tree::LOGICAL_END as int, l as u64);
        assert(extent::mapped(w, l as u64) == (if l < keep {
            extent::mapped(e, l as u64)
        } else {
            None
        }));
        if l < keep && extent::mapped(e, l as u64) is Some {
            let b = extent::mapped(e, l as u64)->Some_0;
            assert(volume::kept_apart(st, sb, num, b));
            assert(!volume::node_block(st, sb, num, d, b));
            if log.contains(b) {
                assert(append::unmapped(e, b));
            }
            assert(block_device::block_at(s1.disk, bs, b) == block_device::block_at(
                st.disk,
                bs,
                b,
            ));
            assert(volume::untouched(st, s1, bs, b));
            assert(volume::agrees(st, bs, b));
            reveal(volume::agrees);
        }
    }
    w
}

/// Once committed, a file's blocks read as they read in the transaction.
proof fn lemma_read_back(
    s: FsState,
    sb: Superblock,
    num: u32,
    d: nat,
    log: Seq<u64>,
    disk: Seq<u8>,
)
    requires
        volume::sound_file(s, sb, num, d),
        data::data_agrees(s, sb, num),
        append::clear_of(s, sb, num, d, log),
        forall|b: u64| #![trigger block_device::block_at(disk, sb.block_size, b)]
            b != volume::table_block(s.gdt, sb, num) && !log.contains(b) ==> block_device::block_at(
                disk,
                sb.block_size,
                b,
            ) == fs_state::fetched(s.disk, s.txn.blocks, sb.block_size, b),
    ensures
        forall|l: int|
            0 <= l <= u64::MAX ==> #[trigger] file::lblock_bytes(
                disk,
                sb.block_size,
                volume::extents_now(s, sb, num),
                l,
            ) == file::lblock_bytes(
                s.disk,
                sb.block_size,
                volume::extents_now(s, sb, num),
                l,
            ),
{
    let w = volume::extents_now(s, sb, num);
    volume::lemma_extents(s, sb, num, d);
    assert forall|l: int| 0 <= l <= u64::MAX implies #[trigger] file::lblock_bytes(
        disk,
        sb.block_size,
        w,
        l,
    ) == file::lblock_bytes(s.disk, sb.block_size, w, l) by {
        tree::law_resolved_as_mapped(w, 0, tree::LOGICAL_END as int, l as u64);
        if extent::mapped(w, l as u64) is Some {
            let b = extent::mapped(w, l as u64)->Some_0;
            if log.contains(b) {
                assert(append::unmapped(w, b));
            }
            assert(volume::kept_apart(s, sb, num, b));
            reveal(volume::agrees);
        }
    }
}

} // verus!
