//! When a write request is carried out.
use vstd::prelude::*;
use super::append;
use super::data;
use super::pins;
use super::requests;
use super::tree;
use super::volume;
use crate::block_device;
use crate::bytes;
use crate::extent;
use crate::file_write;
use crate::fs_context;
use crate::fs_context::VolState;
use crate::fs_state;
use crate::fs_state::FsState;
use crate::fsp_impl;
use crate::fsp_impl::write_file;
use crate::inode;
use crate::inode_write;
use crate::journal;
use crate::journal::replay;
use crate::journal::writer;
use crate::journal::writer::{LogState, TxnView};
use crate::superblock::Superblock;
use crate::superblock_write;

verus! {

/// Whether the journal can be written: its head is on the ring, and all of its blocks are on
/// the device.
pub open spec fn log_on(s: LogState) -> bool {
    &&& block_device::sectored(s.w.bs)
    &&& s.disk.len() % 512 == 0
    &&& s.w.first <= s.w.head < s.w.total
    &&& s.w.total <= s.w.blocks.len()
    &&& forall|i: int|
        0 <= i < s.w.blocks.len() ==> block_device::block_at(
            s.disk,
            s.w.bs,
            #[trigger] s.w.blocks[i],
        ) is Ok
}

/// Whether the blocks that a transaction pins are on the device.
pub open spec fn homed(disk: Seq<u8>, bs: u32, blocks: Seq<(u64, Seq<u8>)>) -> bool {
    forall|i: int|
        0 <= i < blocks.len() ==> block_device::block_at(disk, bs, (#[trigger] blocks[i]).0) is Ok
}

/// Whether a block is on the device depends on the size of that alone.
pub proof fn lemma_on(a: Seq<u8>, b: Seq<u8>, bs: u32, x: u64)
    requires
        block_device::sectored(bs),
        a.len() == b.len(),
        block_device::block_at(a, bs, x) is Ok,
    ensures
        block_device::block_at(b, bs, x) is Ok,
{
    volume::lemma_readable(a, b, bs, x);
}

/// A block that is on the device can be written.
pub proof fn lemma_writes(disk: Seq<u8>, bs: u32, x: u64, data: Seq<u8>)
    requires
        block_device::sectored(bs),
        disk.len() % 512 == 0,
        data.len() == bs,
        block_device::block_at(disk, bs, x) is Ok,
    ensures
        block_device::block_write_result(disk, bs, x, data) is Ok,
        block_device::with_block(disk, bs, x, data).len() == disk.len(),
{
    block_device::lemma_block_at(disk, bs, x);
    block_device::lemma_block_write_read(disk, bs, x, data, x);
}

proof fn lemma_logged(s: LogState, data: Seq<u8>)
    requires
        log_on(s),
    ensures
        writer::logged(s, data).1 is Ok,
        log_on(writer::logged(s, data).0),
        writer::logged(s, data).0.disk.len() == s.disk.len(),
        writer::logged(s, data).0.w.bs == s.w.bs,
        writer::logged(s, data).0.w.wide == s.w.wide,
{
    let b = s.w.blocks[s.w.head as int];
    lemma_writes(s.disk, s.w.bs, b, writer::padded(data, s.w.bs));
    let s1 = writer::logged(s, data).0;
    assert forall|i: int| 0 <= i < s1.w.blocks.len() implies block_device::block_at(
        s1.disk,
        s1.w.bs,
        #[trigger] s1.w.blocks[i],
    ) is Ok by {
        lemma_on(s.disk, s1.disk, s.w.bs, s.w.blocks[i]);
    }
}

proof fn lemma_revokes_logged(s: LogState, revoked: Seq<u64>, seq: u32)
    requires
        log_on(s),
    ensures
        writer::revokes_logged(s, revoked, seq).1 is Ok,
        log_on(writer::revokes_logged(s, revoked, seq).0),
        writer::revokes_logged(s, revoked, seq).0.disk.len() == s.disk.len(),
        writer::revokes_logged(s, revoked, seq).0.w.bs == s.w.bs,
    decreases revoked.len(),
{
    if revoked.len() > 0 && s.w.bs >= 24 {
        let nums = writer::first_revoked(s.w.bs, revoked, s.w.wide);
        let b = writer::revoke_block(s.w.bs, nums, seq, s.w.wide, nums.len() as int);
        lemma_logged(s, b);
        lemma_revokes_logged(writer::logged(s, b).0, revoked.skip(nums.len() as int), seq);
    }
}

proof fn lemma_data_logged(s: LogState, blocks: Seq<(u64, Seq<u8>)>, k: int)
    requires
        log_on(s),
    ensures
        writer::data_logged(s, blocks, k).1 is Ok,
        log_on(writer::data_logged(s, blocks, k).0),
        writer::data_logged(s, blocks, k).0.disk.len() == s.disk.len(),
        writer::data_logged(s, blocks, k).0.w.bs == s.w.bs,
    decreases blocks.len() - k,
{
    if k < blocks.len() {
        lemma_logged(s, writer::escaped(blocks[k].1));
        lemma_data_logged(writer::logged(s, writer::escaped(blocks[k].1)).0, blocks, k + 1);
    }
}

proof fn lemma_applied(disk: Seq<u8>, bs: u32, blocks: Seq<(u64, Seq<u8>)>, k: int)
    requires
        block_device::sectored(bs),
        disk.len() % 512 == 0,
        homed(disk, bs, blocks),
        forall|i: int| 0 <= i < blocks.len() ==> (#[trigger] blocks[i]).1.len() == bs,
        0 <= k,
    ensures
        replay::applied(disk, bs, blocks, k).1 is Ok,
    decreases blocks.len() - k,
{
    if k < blocks.len() {
        let b = blocks[k].0;
        let data = blocks[k].1;
        lemma_writes(disk, bs, b, data);
        let next = block_device::with_block(disk, bs, b, data);
        assert forall|i: int| 0 <= i < blocks.len() implies block_device::block_at(
            next,
            bs,
            (#[trigger] blocks[i]).0,
        ) is Ok by {
            lemma_on(disk, next, bs, blocks[i].0);
        }
        lemma_applied(next, bs, blocks, k + 1);
    }
}

/// A transaction is committed where the journal and the blocks that it pins are on the
/// device, and the tags of these fit into one block.
pub proof fn law_commit_succeeds(s: LogState, t: TxnView)
    requires
        log_on(s),
        homed(s.disk, s.w.bs, t.blocks),
        t.blocks.len() == 0 || writer::tag_offset(t.blocks.len() - 1) + 12 <= s.w.bs,
    ensures
        writer::committed(s, t).1 is Ok,
{
    lemma_revokes_logged(s, t.revoked, t.sequence);
    let s1 = writer::revokes_logged(s, t.revoked, t.sequence).0;
    if t.blocks.len() > 0 {
        let desc = writer::descriptor(s1.w, t.blocks, t.sequence, t.blocks.len() as int);
        lemma_logged(s1, desc);
        lemma_data_logged(writer::logged(s1, desc).0, t.blocks, 0);
    }
    let s2 = writer::blocks_logged(s1, t).0;
    lemma_logged(s2, writer::commit_block(s2.w, t.sequence));
    let s3 = writer::txn_logged(s, t).0;
    let v = writer::padded_all(t.blocks, s.w.bs);
    assert forall|i: int| 0 <= i < v.len() implies block_device::block_at(
        s3.disk,
        s.w.bs,
        (#[trigger] v[i]).0,
    ) is Ok by {
        assert(v[i].0 == t.blocks[i].0);
        lemma_on(s.disk, s3.disk, s.w.bs, t.blocks[i].0);
    }
    lemma_applied(s3.disk, s.w.bs, v, 0);
}

/// Whether a transaction pins whole blocks, each once, that are on the device.
pub open spec fn settled(st: FsState, sb: Superblock) -> bool {
    &&& pins::whole(st, sb)
    &&& st.disk.len() % 512 == 0
    &&& homed(st.disk, sb.block_size, st.txn.blocks)
}

/// Pinning a block that is on the device.
pub proof fn lemma_pin_settled(st: FsState, sb: Superblock, b: u64, data: Seq<u8>)
    requires
        settled(st, sb),
        data.len() == sb.block_size,
        block_device::block_at(st.disk, sb.block_size, b) is Ok,
    ensures
        settled(fs_state::pin(st, b, data), sb),
{
    pins::lemma_pinned(st, sb, b, data);
    let s = fs_state::pin(st, b, data);
    writer::lemma_pin_index(st.txn.blocks, b);
    assert forall|i: int| 0 <= i < s.txn.blocks.len() implies block_device::block_at(
        s.disk,
        sb.block_size,
        (#[trigger] s.txn.blocks[i]).0,
    ) is Ok by {
        if i < st.txn.blocks.len() {
            assert(block_device::block_at(st.disk, sb.block_size, st.txn.blocks[i].0) is Ok);
        }
    }
}

/// Writing a block through that is on the device.
pub proof fn lemma_store_settled(st: FsState, sb: Superblock, b: u64, data: Seq<u8>)
    requires
        settled(st, sb),
        data.len() == sb.block_size,
        block_device::block_at(st.disk, sb.block_size, b) is Ok,
    ensures
        fs_state::store(st, sb.block_size, b, data).1 is Ok,
        settled(fs_state::store(st, sb.block_size, b, data).0, sb),
        fs_state::store(st, sb.block_size, b, data).0.disk.len() == st.disk.len(),
        fs_state::store(st, sb.block_size, b, data).0.gdt == st.gdt,
{
    let bs = sb.block_size;
    lemma_writes(st.disk, bs, b, data);
    let disk = block_device::with_block(st.disk, bs, b, data);
    let mid = FsState { disk, ..st };
    assert forall|i: int| 0 <= i < st.txn.blocks.len() implies block_device::block_at(
        disk,
        bs,
        (#[trigger] st.txn.blocks[i]).0,
    ) is Ok by {
        lemma_on(st.disk, disk, bs, st.txn.blocks[i].0);
    }
    lemma_on(st.disk, disk, bs, b);
    lemma_pin_settled(mid, sb, b, data);
}

/// Data is written into blocks that are on the device.
#[verifier::rlimit(50)]
pub proof fn lemma_poured(
    st: FsState,
    sb: Superblock,
    map: Seq<u64>,
    offset: int,
    data: Seq<u8>,
    k: int,
)
    requires
        settled(st, sb),
        0 <= k,
        forall|i: int|
            0 <= i < map.len() ==> block_device::block_at(
                st.disk,
                sb.block_size,
                #[trigger] map[i],
            ) is Ok,
    ensures
        file_write::poured(st, sb, map, offset, data, k).1 is Ok,
        settled(file_write::poured(st, sb, map, offset, data, k).0, sb),
        file_write::poured(st, sb, map, offset, data, k).0.disk.len() == st.disk.len(),
        file_write::poured(st, sb, map, offset, data, k).0.gdt == st.gdt,
    decreases map.len() - k,
{
    let bs = sb.block_size;
    if k < map.len() {
        let n = bs as int;
        let b = if file_write::is_whole(n, offset, data, k) {
            bytes::zeros(n)
        } else {
            block_device::block_at(st.disk, bs, map[k])->Ok_0
        };
        block_device::lemma_block_at(st.disk, bs, map[k]);
        let d = bytes::put(
            b,
            file_write::part_offset(n, offset, k),
            file_write::part(n, offset, data, k),
        );
        assert(d.len() == bs) by {
            broadcast use crate::bytes::lemma_put_len;

        }
        lemma_store_settled(st, sb, map[k], d);
        let s1 = fs_state::store(st, bs, map[k], d).0;
        assert forall|i: int| 0 <= i < map.len() implies block_device::block_at(
            s1.disk,
            bs,
            #[trigger] map[i],
        ) is Ok by {
            lemma_on(st.disk, s1.disk, bs, map[i]);
        }
        lemma_poured(s1, sb, map, offset, data, k + 1);
    }
}

/// Whether as many blocks as a transaction pins have room for their tags in one block.
pub open spec fn tags_fit(sb: Superblock, n: int) -> bool {
    n == 0 || writer::tag_offset(n - 1) + 12 <= sb.block_size
}

/// Whether a write request can be committed: the journal and the superblock are on the
/// device, and the tags of the blocks that the request pins fit into one block.
pub open spec fn fits_journal(
    v: VolState,
    sb: Superblock,
    num: u32,
    at: int,
    data: Seq<u8>,
    seconds: Option<u64>,
) -> bool {
    let st = requests::at_rest(v);
    let i = volume::inode_now(st, sb, num);
    &&& log_on(LogState { disk: v.disk, w: v.w })
    &&& block_device::block_at(v.disk, sb.block_size, superblock_write::home_block(sb)) is Ok
    &&& tags_fit(sb, write_file::put(st, sb, num, i, at, data, seconds).0.txn.blocks.len() as int)
}

/// A write request is carried out where its data could be written to the file, and it can be
/// committed.
#[verifier::rlimit(100)]
pub proof fn lemma_carried_out(
    v: VolState,
    sb: Superblock,
    num: u32,
    d: nat,
    data: Seq<u8>,
    offset: u64,
    to_eof: bool,
    constrained: bool,
    seconds: Option<u64>,
)
    requires
        data.len() > 0,
        ({
            let st = requests::at_rest(v);
            let i = volume::inode_now(st, sb, num);
            let at = requests::write_start(i, offset, to_eof) as int;
            let (s, r) = file_write::file_written(st, sb, num, i, at, data);
            &&& requests::well_placed(v, sb, num, d, at, data.len() as int)
            &&& !constrained || at + data.len() <= i.size
            &&& r is Ok
            &&& settled(s, sb)
            &&& fits_journal(v, sb, num, at, data, seconds)
        }),
    ensures
        ({
            let r = write_file::written(
                v,
                sb,
                false,
                true,
                num,
                data,
                offset,
                to_eof,
                constrained,
                seconds,
            ).1;
            &&& r is Ok
            &&& data.len() <= u32::MAX ==> r->Ok_0.0 == data.len()
        }),
{
    let bs = sb.block_size;
    let st = requests::at_rest(v);
    let log = requests::shared_blocks(v, sb);
    let i = volume::inode_now(st, sb, num);
    let at = requests::write_start(i, offset, to_eof);
    let len = data.len() as int;
    assert(at + len <= u64::MAX) by (nonlinear_arith)
        requires
            at + len <= 0x1_0000_0000 * bs,
            bs <= 65536,
    ;
    requests::lemma_at_rest(v, sb, num);
    let s1 = file_write::file_written(st, sb, num, i, at as int, data).0;
    let d2 = data::law_write_then_read(st, sb, num, d, at as int, data, log);
    let size = block_device::max(at + len, i.size as int) as u64;
    let u = fsp_impl::resize(size, seconds);
    let t = volume::table_block(s1.gdt, sb, num);
    let o = inode::slot_offset(sb, num);
    volume::lemma_slot_read(s1, sb, num);
    let x = block_device::block_at(s1.disk, bs, t)->Ok_0;
    assert(fs_state::fetched(s1.disk, s1.txn.blocks, bs, t) == block_device::block_at(
        s1.disk,
        bs,
        t,
    )) by {
        reveal(volume::agrees);
    }
    let rec = x.subrange(o, o + 128);
    let y = bytes::put(x, o, inode_write::updated_record(rec, u));
    bytes::lemma_put_len(x, o, inode_write::updated_record(rec, u));
    let s2 = fsp_impl::touched(s1, sb, num, u).0;
    assert(s2 == fs_state::pin(s1, t, y));
    lemma_pin_settled(s1, sb, t, y);
    let home = superblock_write::home_block(sb);
    lemma_on(v.disk, s2.disk, bs, home);
    let b = block_device::block_at(s2.disk, bs, home)->Ok_0;
    block_device::lemma_block_at(s2.disk, bs, home);
    let z = superblock_write::recounted(
        b,
        superblock_write::home_offset(sb),
        bytes::sat64(fsp_impl::free_blocks(s2.gdt)),
        crate::extent_write::sat32(fsp_impl::free_inodes(s2.gdt)),
        fsp_impl::stamp(seconds),
    );
    assert(z.len() == bs) by {
        broadcast use crate::bytes::lemma_put_len;

    }
    let s3 = fsp_impl::recounted(s2, sb, seconds).0;
    assert(s3 == fs_state::pin(s2, home, z));
    lemma_pin_settled(s2, sb, home, z);
    let ls = LogState { disk: s3.disk, w: v.w };
    assert(log_on(ls)) by {
        assert forall|k: int| 0 <= k < v.w.blocks.len() implies block_device::block_at(
            s3.disk,
            bs,
            #[trigger] v.w.blocks[k],
        ) is Ok by {
            lemma_on(v.disk, s3.disk, bs, v.w.blocks[k]);
        }
    }
    assert(s3 == write_file::put(st, sb, num, i, at as int, data, seconds).0);
    law_commit_succeeds(ls, s3.txn);
    requests::lemma_closed(v, s2, sb, seconds);
    let v2 = fs_context::closed(fs_context::after(v, s3), s3.txn).0;
    if log.contains(t) {
        assert(append::bystander(s1, sb, num, d2, t));
    }
    writer::lemma_pin(s1.txn.blocks, t, y, t);
    inode_write::lemma_updated_record(rec, u);
    assert(y.subrange(o, o + 128) =~= inode_write::updated_record(rec, u));
    volume::lemma_inode_seen(s2, sb, num, log, v2.disk);
}

/// Blocks that are all mapped are found where they are, and nothing changes.
proof fn lemma_provisioned_mapped(
    st: FsState,
    sb: Superblock,
    num: u32,
    d: nat,
    l: int,
    last: int,
)
    requires
        volume::sound_file(st, sb, num, d),
        0 <= l <= last + 1,
        last < tree::LOGICAL_END,
        forall|m: u64|
            l <= m <= last ==> (#[trigger] extent::mapped(
                volume::extents_now(st, sb, num),
                m,
            )) is Some,
    ensures
        ({
            let (s, r) = file_write::provisioned(
                st,
                sb,
                num,
                volume::inode_now(st, sb, num),
                l,
                last,
            );
            &&& s == st
            &&& r is Ok
            &&& r->Ok_0.len() == last + 1 - l
            &&& forall|k: int|
                0 <= k < r->Ok_0.len() ==> Some(#[trigger] r->Ok_0[k]) == extent::mapped(
                    volume::extents_now(st, sb, num),
                    (l + k) as u64,
                )
        }),
    decreases last + 1 - l,
{
    if l <= last {
        data::lemma_found(st, sb, num, d, l as u64);
        volume::lemma_slot_read(st, sb, num);
        assert(extent::mapped(volume::extents_now(st, sb, num), l as u64) is Some);
        lemma_provisioned_mapped(st, sb, num, d, l + 1, last);
        let i = volume::inode_now(st, sb, num);
        let rest = file_write::provisioned(st, sb, num, i, l + 1, last).1->Ok_0;
        let map = file_write::provisioned(st, sb, num, i, l, last).1->Ok_0;
        assert forall|k: int| 0 <= k < map.len() implies Some(#[trigger] map[k]) == extent::mapped(
            volume::extents_now(st, sb, num),
            (l + k) as u64,
        ) by {
            if k > 0 {
                assert(map[k] == rest[k - 1]);
                assert((l + 1 + (k - 1)) as u64 == (l + k) as u64);
            }
        }
    }
}

/// Where the blocks end that `len` bytes from `at` on touch.
pub proof fn lemma_last_block(sb: Superblock, at: int, len: int)
    requires
        sb.wf(),
        0 <= at,
        0 < len,
        at + len <= tree::LOGICAL_END * sb.block_size,
    ensures
        0 <= at / (sb.block_size as int) <= (at + len - 1) / (sb.block_size as int)
            < tree::LOGICAL_END,
{
    let bs = sb.block_size as int;
    let last = (at + len - 1) / bs;
    vstd::arithmetic::div_mod::lemma_div_pos_is_pos(at, bs);
    vstd::arithmetic::div_mod::lemma_div_is_ordered(at, at + len - 1, bs);
    vstd::arithmetic::div_mod::lemma_fundamental_div_mod(at + len - 1, bs);
    vstd::arithmetic::div_mod::lemma_mod_bound(at + len - 1, bs);
    assert(last < tree::LOGICAL_END) by (nonlinear_arith)
        requires
            at + len - 1 == bs * last + (at + len - 1) % bs,
            (at + len - 1) % bs >= 0,
            at + len <= tree::LOGICAL_END * bs,
            bs > 0,
    ;
}

/// A request that writes over blocks that a sound file has is carried out, wherever in the
/// file it writes, and answered with how many bytes it wrote: all of them.
#[verifier::rlimit(50)]
pub proof fn law_overwrite_succeeds(
    v: VolState,
    sb: Superblock,
    num: u32,
    d: nat,
    data: Seq<u8>,
    offset: u64,
    to_eof: bool,
    constrained: bool,
    seconds: Option<u64>,
)
    requires
        0 < data.len() <= u32::MAX,
        ({
            let st = requests::at_rest(v);
            let i = volume::inode_now(st, sb, num);
            let at = requests::write_start(i, offset, to_eof) as int;
            &&& requests::well_placed(v, sb, num, d, at, data.len() as int)
            &&& !constrained || at + data.len() <= i.size
            &&& fits_journal(v, sb, num, at, data, seconds)
            &&& forall|m: u64|
                at / (sb.block_size as int) <= m <= (at + data.len() - 1) / (sb.block_size as int)
                    ==> (#[trigger] extent::mapped(volume::extents_now(st, sb, num), m)) is Some
                    && block_device::block_at(
                    v.disk,
                    sb.block_size,
                    extent::mapped(volume::extents_now(st, sb, num), m)->Some_0,
                ) is Ok
        }),
    ensures
        ({
            let r = write_file::written(
                v,
                sb,
                false,
                true,
                num,
                data,
                offset,
                to_eof,
                constrained,
                seconds,
            ).1;
            &&& r is Ok
            &&& r->Ok_0.0 == data.len()
        }),
{
    let st = requests::at_rest(v);
    let i = volume::inode_now(st, sb, num);
    let at = requests::write_start(i, offset, to_eof) as int;
    let bs = sb.block_size as int;
    let l = at / bs;
    let last = (at + data.len() - 1) / bs;
    lemma_last_block(sb, at, data.len() as int);
    requests::lemma_at_rest(v, sb, num);
    lemma_provisioned_mapped(st, sb, num, d, l, last);
    let map = file_write::provisioned(st, sb, num, i, l, last).1->Ok_0;
    assert forall|k: int| 0 <= k < map.len() implies block_device::block_at(
        st.disk,
        sb.block_size,
        #[trigger] map[k],
    ) is Ok by {
        assert(Some(map[k]) == extent::mapped(
            volume::extents_now(st, sb, num),
            (l + k) as u64,
        ));
    }
    assert(settled(st, sb));
    lemma_poured(st, sb, map, at, data, 0);
    lemma_carried_out(v, sb, num, d, data, offset, to_eof, constrained, seconds);
}

} // verus!
