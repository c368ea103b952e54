//! What requests that open and read a file, or set its size and times, promise.
use vstd::prelude::*;
use super::data;
use super::formats;
use super::layout;
use super::names;
use super::requests;
use super::success;
use super::tree;
use super::volume;
use crate::block_device;
use crate::bytes;
use crate::extent;
use crate::file;
use crate::fs_context;
use crate::fs_context::{FileHandle, VolState};
use crate::fs_state;
use crate::fsp_impl;
use crate::fsp_impl::file_info;
use crate::fsp_impl::open_close;
use crate::fsp_impl::read_file;
use crate::fsp_impl::set_file_info;
use crate::fsp_impl::set_file_size;
use crate::fsp_impl::Status;
use crate::inode;
use crate::inode_write;
use crate::journal::writer;
use crate::journal::writer::LogState;
use crate::superblock::Superblock;
use crate::superblock_write;

verus! {

/// Whether the record of inode `num` can be changed and the change committed: it lies apart
/// from the journal and the superblock, which are on the device.
pub open spec fn changeable(v: VolState, sb: Superblock, num: u32) -> bool {
    let t = volume::table_block(v.gdt, sb, num);
    &&& sb.wf()
    &&& v.disk.len() % 512 == 0
    &&& v.w.bs == sb.block_size
    &&& volume::sound_slot(requests::at_rest(v), sb, num)
    &&& !v.w.blocks.contains(t)
    &&& t != superblock_write::home_block(sb)
    &&& success::log_on(LogState { disk: v.disk, w: v.w })
    &&& block_device::block_at(v.disk, sb.block_size, superblock_write::home_block(sb)) is Ok
}

/// A request that sets the times of a file is carried out, and sets those that it gives; those
/// that it does not give, and all else of the inode, stay.
#[verifier::rlimit(50)]
pub proof fn law_times_set(
    v: VolState,
    sb: Superblock,
    num: u32,
    atime: u64,
    mtime: u64,
    ctime: u64,
    a: u32,
    m: u32,
    c: u32,
)
    requires
        changeable(v, sb, num),
        sb.block_size >= 1024,
    ensures
        ({
            let i = inode::inode_at(v.disk, sb, v.gdt, num)->Ok_0;
            let (v2, r) = set_file_info::retimed(
                v,
                sb,
                false,
                num,
                set_file_info::retime(atime, mtime, ctime),
            );
            let j = r->Ok_0;
            &&& r is Ok
            &&& inode::inode_at(v2.disk, sb, v2.gdt, num) == Ok::<_, inode::InodeError>(j)
            &&& atime == 0 ==> j.atime == i.atime
            &&& mtime == 0 ==> j.mtime == i.mtime
            &&& ctime == 0 ==> j.ctime == i.ctime
            &&& atime == file_info::filetime(a) ==> j.atime == a
            &&& mtime == file_info::filetime(m) ==> j.mtime == m
            &&& ctime == file_info::filetime(c) ==> j.ctime == c
            &&& j.mode == i.mode && j.uid == i.uid && j.gid == i.gid
            &&& j.size == i.size && j.links_count == i.links_count
            &&& j.flags == i.flags && j.block_data == i.block_data
        }),
{
    let bs = sb.block_size;
    let st = requests::at_rest(v);
    let u = set_file_info::retime(atime, mtime, ctime);
    let t = volume::table_block(v.gdt, sb, num);
    let o = inode::slot_offset(sb, num);
    requests::lemma_at_rest(v, sb, num);
    volume::lemma_slot_read(st, sb, num);
    let x = block_device::block_at(st.disk, bs, t)->Ok_0;
    let rec = x.subrange(o, o + 128);
    let y = bytes::put(x, o, inode_write::updated_record(rec, u));
    bytes::lemma_put_len(x, o, inode_write::updated_record(rec, u));
    inode_write::lemma_updated_record(rec, u);
    let s = fsp_impl::touched(st, sb, num, u).0;
    assert(s == fs_state::pin(st, t, y));
    assert(success::settled(st, sb));
    success::lemma_pin_settled(st, sb, t, y);
    writer::lemma_pin(st.txn.blocks, t, y, t);
    assert(s.txn.blocks.len() == 1);
    success::law_commit_succeeds(LogState { disk: s.disk, w: v.w }, s.txn);
    names::lemma_ended(v, s, sb);
    let v2 = fsp_impl::ended(fs_context::after(v, s), s.txn).0;
    assert(fs_context::after(v, s) == v);
    assert(y.subrange(o, o + 128) =~= inode_write::updated_record(rec, u));
    volume::lemma_inode_seen(s, sb, num, v.w.blocks, v2.disk);
    set_file_info::law_filetime(a);
    set_file_info::law_filetime(m);
    set_file_info::law_filetime(c);
}

/// A request that makes a file longer is carried out, whatever size it asks for, and the file
/// has that size then.
#[verifier::rlimit(50)]
pub proof fn law_longer_succeeds(
    v: VolState,
    sb: Superblock,
    num: u32,
    new_size: u64,
    seconds: Option<u64>,
)
    requires
        changeable(v, sb, num),
        sb.block_size >= 1024,
        inode::inode_at(v.disk, sb, v.gdt, num)->Ok_0.size <= new_size,
    ensures
        ({
            let i = inode::inode_at(v.disk, sb, v.gdt, num)->Ok_0;
            let (v2, r) = set_file_size::resized(v, sb, false, true, num, new_size, seconds);
            &&& r is Ok
            &&& r->Ok_0.size == new_size
            &&& inode::inode_at(v2.disk, sb, v2.gdt, num) == Ok::<_, inode::InodeError>(r->Ok_0)
            &&& r->Ok_0.block_data == i.block_data
            &&& r->Ok_0.links_count == i.links_count
        }),
{
    let bs = sb.block_size;
    let st = requests::at_rest(v);
    let u = fsp_impl::resize(new_size, seconds);
    let t = volume::table_block(v.gdt, sb, num);
    let o = inode::slot_offset(sb, num);
    let home = superblock_write::home_block(sb);
    requests::lemma_at_rest(v, sb, num);
    volume::lemma_slot_read(st, sb, num);
    let x = block_device::block_at(st.disk, bs, t)->Ok_0;
    let rec = x.subrange(o, o + 128);
    let y = bytes::put(x, o, inode_write::updated_record(rec, u));
    bytes::lemma_put_len(x, o, inode_write::updated_record(rec, u));
    inode_write::lemma_updated_record(rec, u);
    let s1 = fsp_impl::touched(st, sb, num, u).0;
    assert(s1 == fs_state::pin(st, t, y));
    assert(success::settled(st, sb));
    success::lemma_pin_settled(st, sb, t, y);
    let b = block_device::block_at(s1.disk, bs, home)->Ok_0;
    block_device::lemma_block_at(s1.disk, bs, home);
    let z = superblock_write::recounted(
        b,
        superblock_write::home_offset(sb),
        bytes::sat64(fsp_impl::free_blocks(s1.gdt)),
        crate::extent_write::sat32(fsp_impl::free_inodes(s1.gdt)),
        fsp_impl::stamp(seconds),
    );
    assert(z.len() == bs) by {
        broadcast use crate::bytes::lemma_put_len;

    }
    let s2 = fsp_impl::recounted(s1, sb, seconds).0;
    assert(s2 == fs_state::pin(s1, home, z));
    success::lemma_pin_settled(s1, sb, home, z);
    assert(s1.txn.blocks.len() <= 1);
    assert(s2.txn.blocks.len() <= 2) by {
        writer::lemma_pin_index(s1.txn.blocks, home);
        assert(s2.txn.blocks == writer::pin(s1.txn.blocks, home, z));
    }
    success::law_commit_succeeds(LogState { disk: s2.disk, w: v.w }, s2.txn);
    requests::lemma_closed(v, s1, sb, seconds);
    let v2 = fs_context::closed(fs_context::after(v, s2), s2.txn).0;
    let log = requests::shared_blocks(v, sb);
    assert(!log.contains(t)) by {
        if log.contains(t) {
            let k = choose|k: int| 0 <= k < log.len() && log[k] == t;
            if k < v.w.blocks.len() {
                assert(v.w.blocks[k] == t);
                assert(v.w.blocks.contains(t));
            }
        }
    }
    writer::lemma_pin(st.txn.blocks, t, y, t);
    assert(y.subrange(o, o + 128) =~= inode_write::updated_record(rec, u));
    volume::lemma_inode_seen(s1, sb, num, log, v2.disk);
}

/// A sound file is read wherever in it the read starts, where the blocks that it maps are on
/// the device.
#[verifier::rlimit(50)]
pub proof fn law_read_succeeds(
    v: VolState,
    sb: Superblock,
    num: u32,
    d: nat,
    offset: u64,
    len: int,
)
    requires
        volume::sound_file(requests::at_rest(v), sb, num, d),
        volume::inode_now(requests::at_rest(v), sb, num).mode / 0x1000 == 8,
        offset <= i64::MAX,
        0 <= len,
        forall|l: u64|
            (#[trigger] extent::mapped(volume::extents_now(requests::at_rest(v), sb, num), l)) is Some
                ==> block_device::block_at(
                v.disk,
                sb.block_size,
                extent::mapped(volume::extents_now(requests::at_rest(v), sb, num), l)->Some_0,
            ) is Ok,
    ensures
        read_file::read_out(v, sb, num, offset, len) is Ok,
{
    let st = requests::at_rest(v);
    let bs = sb.block_size;
    let i = volume::inode_now(st, sb, num);
    let e = volume::extents_now(st, sb, num);
    layout::law_file_type(i.mode);
    volume::lemma_slot_read(st, sb, num);
    volume::lemma_extents(st, sb, num, d);
    tree::law_resolved_as_mapped(e, 0, tree::LOGICAL_END as int, 0);
    let n = if offset >= i.size {
        0
    } else if len < i.size - offset {
        len
    } else {
        i.size - offset
    };
    assert forall|l: int|
        offset as int / (bs as int) <= l <= (offset + n - 1) / (bs as int) implies (
    #[trigger] file::lblock_bytes(v.disk, bs, e, l)) is Ok by {
        vstd::arithmetic::div_mod::lemma_div_pos_is_pos(offset as int, bs as int);
        if n > 0 {
            vstd::arithmetic::div_mod::lemma_div_is_ordered_by_denominator(
                offset + n - 1,
                1,
                bs as int,
            );
        } else {
            vstd::arithmetic::div_mod::lemma_div_is_ordered(
                offset + n - 1,
                offset as int,
                bs as int,
            );
            vstd::arithmetic::div_mod::lemma_div_is_ordered_by_denominator(
                offset as int,
                1,
                bs as int,
            );
        }
        assert(0 <= l <= u64::MAX);
        tree::law_resolved_as_mapped(e, 0, tree::LOGICAL_END as int, l as u64);
    }
    data::lemma_no_fault(v.disk, bs, e, offset as int, offset + n);
}

/// A regular file or a directory that a path leads to is opened, as what it is and as its
/// inode stands; what no path leads to is not found; a socket, a pipe or a device is denied.
pub proof fn law_opened(
    v: VolState,
    sb: Superblock,
    file_name: Seq<char>,
    r: Result<FileHandle, Status>,
)
    requires
        open_close::opens(v, sb, file_name, r),
    ensures
        ({
            let n = fs_context::resolved(v.disk, sb, v.gdt, fsp_impl::volume_path(file_name));
            let i = inode::inode_at(v.disk, sb, v.gdt, n->Ok_0);
            let kind = i->Ok_0.mode / 0x1000;
            &&& n is Err || i is Err ==> r is Err && r->Err_0 is ObjectNameNotFound
            &&& n is Ok && i is Ok && (kind == 8 || kind == 4) ==> {
                &&& r is Ok
                &&& r->Ok_0 is File <==> kind == 8
                &&& r->Ok_0 is Directory <==> kind == 4
                &&& r->Ok_0.num() == n->Ok_0
                &&& r->Ok_0.snapshot() == i->Ok_0
            }
            &&& n is Ok && i is Ok && (kind == 1 || kind == 2 || kind == 6 || kind == 12)
                ==> r is Err && r->Err_0 is AccessDenied
            &&& n is Ok && i is Ok && kind == 10 && r is Ok ==> r->Ok_0 is Symlink
        }),
{
    let n = fs_context::resolved(v.disk, sb, v.gdt, fsp_impl::volume_path(file_name));
    let i = inode::inode_at(v.disk, sb, v.gdt, n->Ok_0);
    layout::law_file_type(i->Ok_0.mode);
    formats::law_special(i->Ok_0.mode);
}

} // verus!
