//! What renaming promises of later lookups, once it is committed.
use vstd::prelude::*;
use super::append;
use super::clears;
use super::dirs;
use super::names;
use super::pins;
use super::requests;
use super::shares;
use super::tree;
use super::trim;
use super::volume;
use crate::block_device;
use crate::dir;
use crate::dir::{DirError, EntryView};
use crate::dir_write;
use crate::dir_write::Query;
use crate::extent;
use crate::fs_context;
use crate::fs_context::VolState;
use crate::fs_state;
use crate::fs_state::FsState;
use crate::fsp_impl;
use crate::fsp_impl::create;
use crate::fsp_impl::rename;
use crate::group_desc::GroupDesc;
use crate::inode;
use crate::inode::{InodeError, InodeView};
use crate::inode_write;
use crate::journal;
use crate::journal::replay;
use crate::journal::writer;
use crate::superblock::Superblock;
use crate::text;

verus! {

/// The device with all that a transaction pinned in place.
pub open spec fn settled(s: FsState, sb: Superblock) -> Seq<u8> {
    replay::applied(s.disk, sb.block_size, s.txn.blocks, 0).0
}

/// Blocks that the device has can be written.
proof fn lemma_applies(disk: Seq<u8>, bs: u32, blocks: Seq<(u64, Seq<u8>)>, k: int)
    requires
        block_device::sectored(bs),
        disk.len() % 512 == 0,
        0 <= k,
        forall|i: int|
            0 <= i < blocks.len() ==> (#[trigger] blocks[i]).1.len() == bs
                && block_device::block_at(disk, bs, blocks[i].0) is Ok,
    ensures
        replay::applied(disk, bs, blocks, k).1 is Ok,
    decreases blocks.len() - k,
{
    if k < blocks.len() {
        let b = blocks[k].0;
        let next = block_device::with_block(disk, bs, b, blocks[k].1);
        block_device::lemma_block_at(disk, bs, b);
        assert forall|i: int| 0 <= i < blocks.len() implies (#[trigger] blocks[i]).1.len() == bs
            && block_device::block_at(next, bs, blocks[i].0) is Ok by {
            volume::lemma_readable(next, disk, bs, blocks[i].0);
        }
        lemma_applies(next, bs, blocks, k + 1);
    }
}

/// What a transaction of whole blocks sees is what is on the device once they are
/// in place.
pub proof fn lemma_settled(s: FsState, sb: Superblock, log: Seq<u64>)
    requires
        pins::whole(s, sb),
        s.disk.len() % 512 == 0,
        forall|i: int|
            0 <= i < s.txn.blocks.len() ==> block_device::block_at(
                s.disk,
                sb.block_size,
                (#[trigger] s.txn.blocks[i]).0,
            ) is Ok,
    ensures
        volume::sees(s, sb.block_size, log, settled(s, sb)),
{
    let bs = sb.block_size;
    let v = s.txn.blocks;
    let disk = settled(s, sb);
    lemma_applies(s.disk, bs, v, 0);
    journal::laws::law_applied(s.disk, bs, v, 0, 0);
    assert forall|c: u64| #![trigger block_device::block_at(disk, bs, c)]
        block_device::block_at(disk, bs, c) == fs_state::fetched(s.disk, v, bs, c) by {
        journal::laws::law_applied(s.disk, bs, v, 0, c);
        writer::lemma_pin_index(v, c);
        let i = writer::pin_index(v, c);
        if i < v.len() {
            assert(journal::laws::holds(disk, bs, v[i].0, v[i].1));
        }
    }
}

/// A name that is found in a block is listed there. Gives where.
pub proof fn lemma_found_in_block(b: Seq<u8>, pos: int, name: Seq<u8>) -> (j: int)
    requires
        0 <= pos,
        dir_write::found_at(b, pos, Query::Named(name)) is Some,
        dir::block_entries(b, pos) is Ok,
        dirs::names_fit(b, pos),
    ensures
        ({
            let q = dir_write::found_at(b, pos, Query::Named(name))->Some_0;
            let v = dir::block_entries(b, pos)->Ok_0;
            &&& 0 <= j < v.len()
            &&& dir::entry_inode(b, q) != 0
            &&& v[j] == (EntryView {
                inode_num: dir::entry_inode(b, q),
                name: text::text_of(name),
                file_type: dir::entry_type(b, q),
            })
        }),
    decreases b.len() + 0x1_0000 - pos,
{
    if dir_write::is_named(b, pos, name) {
        0
    } else {
        let k = lemma_found_in_block(b, pos + dir::entry_len(b, pos), name);
        if dir::entry_inode(b, pos) == 0 {
            k
        } else {
            k + 1
        }
    }
}

/// A name that is found in a directory is listed there. Gives where.
pub proof fn lemma_found_is_listed(
    disk: Seq<u8>,
    sb: Superblock,
    i: InodeView,
    name: Seq<u8>,
    l: int,
    n: int,
) -> (j: int)
    requires
        0 <= l,
        dir_write::found_from(disk, sb, i, Query::Named(name), l, n) is Ok,
        dir_write::found_from(disk, sb, i, Query::Named(name), l, n)->Ok_0 is Some,
        dir::entries_from(disk, sb, i, l, n) is Ok,
        dirs::all_fit(disk, sb, i, n),
    ensures
        ({
            let (num, file_type) = dir_write::found_from(
                disk,
                sb,
                i,
                Query::Named(name),
                l,
                n,
            )->Ok_0->Some_0;
            let v = dir::entries_from(disk, sb, i, l, n)->Ok_0;
            &&& 0 <= j < v.len()
            &&& num != 0
            &&& v[j] == (EntryView { inode_num: num, name: text::text_of(name), file_type })
        }),
    decreases n - l,
{
    match dirs::place(disk, sb, i, l) {
        Err(_) => 0,
        Ok(None) => lemma_found_is_listed(disk, sb, i, name, l + 1, n),
        Ok(Some(p)) => {
            let b = block_device::block_at(disk, sb.block_size, p)->Ok_0;
            assert(dirs::lies(disk, sb, i, l));
            if dir_write::found_at(b, 0, Query::Named(name)) is Some {
                lemma_found_in_block(b, 0, name)
            } else {
                let k = lemma_found_is_listed(disk, sb, i, name, l + 1, n);
                k + dir::block_entries(b, 0)->Ok_0.len()
            }
        },
    }
}

/// A listed name is found.
pub proof fn lemma_listed_is_named(e: Seq<EntryView>, name: Seq<char>, j: int)
    requires
        0 <= j < e.len(),
        e[j].name == name,
    ensures
        dir::first_named(e, name) is Some,
    decreases e.len(),
{
    if e[0].name != name {
        assert(e.skip(1)[j - 1] == e[j]);
        lemma_listed_is_named(e.skip(1), name, j - 1);
    }
}

/// The only entry of a name is the one that is found.
pub proof fn lemma_only_one_is_found(e: Seq<EntryView>, name: Seq<char>, j: int)
    requires
        0 <= j < e.len(),
        e[j].name == name,
        names::listed_once(e, name),
    ensures
        dir::first_named(e, name) == Some(e[j].inode_num),
    decreases e.len(),
{
    if j > 0 {
        assert(e[0].name == name ==> e[j].name != name);
        assert(e.skip(1)[j - 1] == e[j]);
        assert forall|a: int, b: int|
            0 <= a < b < e.skip(1).len() && (#[trigger] e.skip(1)[a]).name == name implies (
        #[trigger] e.skip(1)[b]).name != name by {
            assert(e.skip(1)[a] == e[a + 1]);
            assert(e.skip(1)[b] == e[b + 1]);
        }
        lemma_only_one_is_found(e.skip(1), name, j - 1);
    }
}

/// A list into which an entry was put under a new name, and from which one was
/// taken under another.
proof fn lemma_list_renamed(e: Seq<EntryView>, k: int, x: EntryView, j: int, from: Seq<char>)
    requires
        0 <= k <= e.len(),
        0 <= j < e.len() + 1,
        x.name != from,
        dir::first_named(e, x.name) is None,
        names::listed_once(e, from),
        e.insert(k, x)[j].name == from,
    ensures
        ({
            let e2 = e.insert(k, x).remove(j);
            &&& dir::first_named(e2, x.name) == Some(x.inode_num)
            &&& dir::first_named(e2, from) is None
            &&& forall|other: Seq<char>|
                other != from && other != x.name ==> #[trigger] dir::first_named(e2, other)
                    == dir::first_named(e, other)
        }),
{
    let m = e.insert(k, x);
    let e2 = m.remove(j);
    assert forall|a: int| 0 <= a < m.len() && a != j implies (#[trigger] m[a]).name != m[j].name by {
        let ja = if j < k {
            j
        } else {
            j - 1
        };
        assert(j != k);
        assert(m[j] == e[ja]);
        if a != k {
            let aa = if a < k {
                a
            } else {
                a - 1
            };
            assert(m[a] == e[aa]);
            if aa < ja {
                assert(e[aa].name == from ==> e[ja].name != from);
            } else {
                assert(e[ja].name == from ==> e[aa].name != from);
            }
        }
    }
    dirs::law_listed_is_found(e, k, x, from);
    dirs::law_unlisted_is_not_found(m, j, x.name);
    assert forall|other: Seq<char>|
        other != from && other != x.name implies #[trigger] dir::first_named(e2, other)
        == dir::first_named(e, other) by {
        dirs::law_listed_is_found(e, k, x, other);
        dirs::law_unlisted_is_not_found(m, j, other);
    }
}

/// What the transaction says of an inode is what its table block says, as the
/// transaction sees that.
pub proof fn lemma_txn_inode(s: FsState, sb: Superblock, gdt: Seq<GroupDesc>, num: u32)
    requires
        pins::whole(s, sb),
        inode::inode_in_range(sb, num),
        inode::group_of(sb, num) < gdt.len(),
        gdt[inode::group_of(sb, num)].inode_table + inode::index_of(sb, num)
            / inode::inodes_per_block(sb) <= u64::MAX,
        inode::slot_byte(sb, gdt[inode::group_of(sb, num)], num) <= u64::MAX,
        fs_state::fetched(
            s.disk,
            s.txn.blocks,
            sb.block_size,
            volume::table_block(gdt, sb, num),
        ) is Ok,
    ensures
        ({
            let o = inode::slot_offset(sb, num);
            let t = fs_state::fetched(
                s.disk,
                s.txn.blocks,
                sb.block_size,
                volume::table_block(gdt, sb, num),
            )->Ok_0;
            inode::inode_in_txn(s.disk, sb, gdt, s.txn.blocks, num) == inode::live_inode(
                t.subrange(o, o + 128),
                num,
            )
        }),
{
    let t = volume::table_block(gdt, sb, num);
    vstd::arithmetic::div_mod::lemma_div_pos_is_pos(num - 1, sb.inodes_per_group as int);
    writer::lemma_pin_index(s.txn.blocks, t);
    if writer::pinned(s.txn.blocks, t) is None {
        volume::lemma_record_in_block(s.disk, sb, gdt, num);
    }
}

/// The state of a rename after the new name went in, and before the old one goes.
pub open spec fn between(
    v: VolState,
    sb: Superblock,
    src: u32,
    from: Seq<char>,
    dst: u32,
    to: Seq<char>,
) -> FsState {
    let (num, file_type) = dir_write::found(
        v.disk,
        sb,
        v.gdt,
        src,
        Query::Named(dir_write::name_bytes(from)),
    )->Ok_0->Some_0;
    dir_write::inserted(
        clears::cleared(v, sb, dst, to),
        sb,
        v.gdt,
        dst,
        dir_write::name_bytes(to),
        num,
        file_type,
    ).0
}

/// Whether each live entry of the directory that the old name is in has room for its
/// name, once the new one is in.
pub open spec fn can_go(
    v: VolState,
    sb: Superblock,
    src: u32,
    from: Seq<char>,
    dst: u32,
    to: Seq<char>,
) -> bool {
    let s = between(v, sb, src, from, dst, to);
    let i = inode::inode_in_txn(s.disk, sb, v.gdt, s.txn.blocks, src)->Ok_0;
    dirs::all_fit(settled(s, sb), sb, i, dir::dir_blocks(sb, i))
}

/// What a transaction pinned stays pinned, if perhaps with other data.
pub proof fn lemma_still_pinned(blocks: Seq<(u64, Seq<u8>)>, b: u64, data: Seq<u8>)
    ensures
        blocks.len() <= writer::pin(blocks, b, data).len(),
        forall|i: int|
            0 <= i < blocks.len() ==> (#[trigger] writer::pin(blocks, b, data)[i]).0 == blocks[i].0,
{
    writer::lemma_pin_index(blocks, b);
}

/// The blocks that a committed transaction pinned are on the device.
pub proof fn lemma_pins_readable(v: VolState, s: FsState, sb: Superblock)
    requires
        v.w.bs == sb.block_size,
        s.disk.len() % 512 == 0,
        pins::whole(s, sb),
        fsp_impl::ended(fs_context::after(v, s), s.txn).1 is Ok,
    ensures
        forall|i: int|
            0 <= i < s.txn.blocks.len() ==> block_device::block_at(
                s.disk,
                sb.block_size,
                (#[trigger] s.txn.blocks[i]).0,
            ) is Ok,
{
    let ls = writer::LogState { disk: s.disk, w: v.w };
    let disk = writer::committed(ls, s.txn).0.disk;
    journal::laws::law_committed_len(ls, s.txn);
    assert forall|i: int| 0 <= i < s.txn.blocks.len() implies block_device::block_at(
        s.disk,
        sb.block_size,
        (#[trigger] s.txn.blocks[i]).0,
    ) is Ok by {
        journal::laws::law_committed(ls, s.txn, i);
        volume::lemma_readable(s.disk, disk, sb.block_size, s.txn.blocks[i].0);
    }
}

/// Moving an entry within a directory: the list has it under its new name, at the
/// first place that this gives, and lost it under its old one, at the second.
#[verifier::rlimit(100)]
proof fn lemma_moved_within(
    v: VolState,
    sb: Superblock,
    dir_num: u32,
    d: nat,
    from: Seq<char>,
    to: Seq<char>,
    seconds: Option<u64>,
) -> (r: (int, int))
    requires
        names::may_grow(requests::at_rest(v), sb, dir_num, d),
        append::clear_of(requests::at_rest(v), sb, dir_num, d, v.w.blocks),
        v.w.bs == sb.block_size,
        from != to,
        ({
            let i = volume::inode_now(requests::at_rest(v), sb, dir_num);
            let e = dir::dir_entries(v.disk, sb, i);
            &&& e is Ok
            &&& clears::may_take(v, sb, dir_num, to)
            &&& dirs::all_fit(v.disk, sb, i, dir::dir_blocks(sb, i))
        }),
        can_go(v, sb, dir_num, from, dir_num, to),
        shares::spares(v, sb, dir_num, from, dir_num, to, dir_num, d),
        rename::moved(v, sb, dir_num, from, dir_num, to, seconds).1 is Ok,
    ensures
        ({
            let e = dir::dir_entries(
                v.disk,
                sb,
                volume::inode_now(requests::at_rest(v), sb, dir_num),
            )->Ok_0;
            let (num, file_type) = dir_write::found(
                v.disk,
                sb,
                v.gdt,
                dir_num,
                Query::Named(dir_write::name_bytes(from)),
            )->Ok_0->Some_0;
            let v2 = rename::moved(v, sb, dir_num, from, dir_num, to, seconds).0;
            let p = inode::inode_at(v2.disk, sb, v2.gdt, dir_num);
            let x = EntryView { inode_num: num, name: to, file_type };
            let f = clears::rest(v, sb, dir_num, to);
            let (k, j) = r;
            &&& dir_write::displaced(
                requests::at_rest(v),
                sb,
                v.gdt,
                dir_num,
                to,
            ).1 is Ok
            &&& 0 <= k <= f.len()
            &&& 0 <= j < f.len() + 1
            &&& f.insert(k, x)[j].name == from
            &&& p is Ok
            &&& dir::dir_entries(v2.disk, sb, p->Ok_0) == Ok::<Seq<EntryView>, DirError>(
                f.insert(k, x).remove(j),
            )
            &&& exists|a: int|
                0 <= a < e.len() && #[trigger] e[a] == (EntryView {
                    inode_num: num,
                    name: from,
                    file_type,
                })
        }),
{
    let bs = sb.block_size;
    let st = requests::at_rest(v);
    let log = v.w.blocks;
    let i = volume::inode_now(st, sb, dir_num);
    let n = dir::dir_blocks(sb, i);
    let e = dir::dir_entries(v.disk, sb, i)->Ok_0;
    let t = volume::table_block(st.gdt, sb, dir_num);
    let o = inode::slot_offset(sb, dir_num);
    let old_name = dir_write::name_bytes(from);
    let new_name = dir_write::name_bytes(to);
    requests::lemma_at_rest(v, sb, dir_num);
    text::law_encoded_is_read(from);
    text::law_encoded_is_read(to);
    let (num, file_type) = dir_write::found(
        v.disk,
        sb,
        v.gdt,
        dir_num,
        Query::Named(old_name),
    )->Ok_0->Some_0;
    let a = lemma_found_is_listed(v.disk, sb, i, old_name, 0, n);
    let s1 = clears::cleared(v, sb, dir_num, to);
    clears::lemma_cleared(v, sb, dir_num, d, to, log);
    clears::lemma_same_view(st, s1, sb, dir_num, d);
    assert forall|b: u64| #[trigger] log.contains(b) implies append::bystander(
        s1,
        sb,
        dir_num,
        d,
        b,
    ) by {
        assert(append::bystander(st, sb, dir_num, d, b));
    }
    let s2 = between(v, sb, dir_num, from, dir_num, to);
    let d2 = dirs::lemma_entered_sound(s1, sb, dir_num, d, new_name, num, file_type, log);
    pins::lemma_entered(s1, sb, dir_num, new_name, num, file_type);
    let i2 = inode::inode_in_txn(s2.disk, sb, st.gdt, s2.txn.blocks, dir_num)->Ok_0;
    let n2 = dir::dir_blocks(sb, i2);
    let (l, data) = dirs::lemma_removed_where(s2, sb, i2, from, 0, n2);
    let q = dirs::place(s2.disk, sb, i2, l)->Ok_0->Some_0;
    let s3 = dir_write::removed(s2, sb, st.gdt, dir_num, from).0;
    assert(s3 == fs_state::pin(s2, q, data));
    pins::lemma_pinned(s2, sb, q, data);
    let v1 = rename::shifted(v, sb, dir_num, from, dir_num, to).0;
    let s5 = dir_write::dropped(
        s3,
        sb,
        v.gdt,
        dir_write::shared(v.disk, sb, v.gdt, dir_num, to),
    ).0;
    assert(v1 == fsp_impl::ended(fs_context::after(v, s5), s5.txn).0);
    let fin = shares::lemma_dropped(v, s3, sb, dir_num, to);
    lemma_still_pinned(s2.txn.blocks, q, data);
    assert forall|x: int| 0 <= x < s2.txn.blocks.len() implies block_device::block_at(
        s2.disk,
        bs,
        (#[trigger] s2.txn.blocks[x]).0,
    ) is Ok by {
        assert(s3.txn.blocks[x].0 == s2.txn.blocks[x].0);
    }
    lemma_settled(s2, sb, log);
    let mid = settled(s2, sb);
    let k = dirs::law_entered(
        s1,
        sb,
        dir_num,
        d,
        to,
        num,
        file_type,
        log,
        settled(s1, sb),
        mid,
    );
    let x = EntryView { inode_num: num, name: to, file_type };
    volume::lemma_slot_read(st, sb, dir_num);
    if log.contains(t) {
        assert(append::bystander(st, sb, dir_num, d, t));
    }
    assert(block_device::block_at(mid, bs, t) is Ok);
    lemma_txn_inode(s2, sb, st.gdt, dir_num);
    volume::lemma_record_in_block(mid, sb, st.gdt, dir_num);
    assert(inode::inode_at(mid, sb, st.gdt, dir_num) == Ok::<InodeView, InodeError>(i2));
    let j = dirs::law_removed(s2, sb, i2, d2, from, log, mid, fin);
    let hops = block_device::sectors(s2.disk) as nat;
    dirs::lemma_dir_blocks(sb, i2);
    tree::law_found_as_listed(
        s2.disk,
        bs,
        i2.block_data,
        d2,
        0,
        tree::LOGICAL_END as int,
        hops,
        l as u64,
    );
    assert(q != t);
    writer::lemma_pin(s2.txn.blocks, q, data, t);
    let v2 = rename::moved(v, sb, dir_num, from, dir_num, to, seconds).0;
    assert(block_device::block_at(fin, bs, t) == block_device::block_at(mid, bs, t));
    volume::lemma_record_in_block(fin, sb, v.gdt, dir_num);
    assert(inode::inode_at(fin, sb, v.gdt, dir_num) == Ok::<InodeView, InodeError>(i2));
    shares::lemma_finished(
        v,
        s3,
        sb,
        dir_num,
        from,
        dir_num,
        to,
        seconds,
        dir_num,
        d,
        fin,
    );
    shares::lemma_inode_kept(v, sb, dir_num, dir_num, dir_num, d, fin, v2.disk);
    lemma_inode_layout(v2.disk, sb, v.gdt, v2.gdt, dir_num);
    let w = extent::tree_leaves(s2.disk, bs, i2.block_data, hops)->Ok_0;
    assert forall|c: u64| #[trigger]
        shares::strays(v, sb, dir_num, from, dir_num, to, c) implies !tree::within(
        s2.disk,
        bs,
        i2.block_data,
        d2,
        c,
    ) && append::unmapped(w, c) by {
        shares::lemma_strays(v, sb, dir_num, from, dir_num, to, dir_num, d, c);
        trim::lemma_same_groups(st, s2, sb, c);
        if append::foreign(st, sb, dir_num, d, c) {
            assert(append::foreign(s1, sb, dir_num, d, c));
        }
        if tree::within(s2.disk, bs, i2.block_data, d2, c) {
            assert(volume::kept_apart(s2, sb, dir_num, c));
        }
        assert forall|l: u64| (#[trigger] extent::mapped(w, l)) != Some(c) by {
            if extent::mapped(w, l) == Some(c) {
                assert(volume::kept_apart(s2, sb, dir_num, c));
            }
        }
    }
    assert forall|c: u64| #[trigger]
        tree::within(s2.disk, bs, i2.block_data, d2, c) implies block_device::block_at(
        fin,
        bs,
        c,
    ) == block_device::block_at(s2.disk, bs, c) && block_device::block_at(v2.disk, bs, c)
        == block_device::block_at(s2.disk, bs, c) by {
        assert(volume::agrees(s2, bs, c));
        reveal(volume::agrees);
        writer::lemma_pin(s2.txn.blocks, q, data, c);
        assert(!shares::strays(v, sb, dir_num, from, dir_num, to, c));
        assert(block_device::block_at(v2.disk, bs, c) == block_device::block_at(fin, bs, c));
    }
    assert forall|l: u64| (#[trigger] extent::mapped(w, l)) is Some implies block_device::block_at(
        v2.disk,
        bs,
        extent::mapped(w, l)->Some_0,
    ) == block_device::block_at(fin, bs, extent::mapped(w, l)->Some_0) by {
        let c = extent::mapped(w, l)->Some_0;
        if shares::strays(v, sb, dir_num, from, dir_num, to, c) {
            assert(append::unmapped(w, c));
        }
    }
    shares::lemma_kept_list(s2, sb, i2, d2, log, v2.disk, fin);
    shares::lemma_alike_lists(
        v2.disk,
        sb,
        inode::inode_at(v2.disk, sb, v.gdt, dir_num)->Ok_0,
        i2,
    );
    assert(e[a] == (EntryView { inode_num: num, name: from, file_type }));
    (k, j)
}

/// A file or directory that was given another name in its directory is found under
/// that name, as the inode that it was found as under the old one; the old name is
/// not found any more, and every other name is found as before.
///
/// What had the new name is replaced. Left out is a name that is kept: such an entry
/// stays as it is.
pub proof fn law_renamed_is_found(
    v: VolState,
    sb: Superblock,
    file_name: Seq<char>,
    new_file_name: Seq<char>,
    replace: bool,
    seconds: Option<u64>,
    src_path: Seq<char>,
    dst_path: Seq<char>,
    dir_num: u32,
    d: nat,
    from: Seq<char>,
    to: Seq<char>,
)
    requires
        create::parted(fsp_impl::volume_path(file_name)) == Some((src_path, from)),
        create::parted(fsp_impl::volume_path(new_file_name)) == Some((dst_path, to)),
        fs_context::resolved(v.disk, sb, v.gdt, src_path) is Ok,
        fs_context::resolved(v.disk, sb, v.gdt, src_path)->Ok_0 == dir_num,
        fs_context::resolved(v.disk, sb, v.gdt, dst_path) is Ok,
        fs_context::resolved(v.disk, sb, v.gdt, dst_path)->Ok_0 == dir_num,
        names::may_grow(requests::at_rest(v), sb, dir_num, d),
        append::clear_of(requests::at_rest(v), sb, dir_num, d, v.w.blocks),
        v.w.bs == sb.block_size,
        from != to,
        ({
            let i = volume::inode_now(requests::at_rest(v), sb, dir_num);
            let e = dir::dir_entries(v.disk, sb, i);
            &&& e is Ok
            &&& clears::may_take(v, sb, dir_num, to)
            &&& names::listed_once(e->Ok_0, from)
            &&& dirs::all_fit(v.disk, sb, i, dir::dir_blocks(sb, i))
        }),
        can_go(v, sb, dir_num, from, dir_num, to),
        shares::spares(v, sb, dir_num, from, dir_num, to, dir_num, d),
        rename::renamed(v, sb, false, file_name, new_file_name, replace, seconds).1 is Ok,
    ensures
        ({
            let e = dir::dir_entries(
                v.disk,
                sb,
                volume::inode_now(requests::at_rest(v), sb, dir_num),
            )->Ok_0;
            let v2 = rename::renamed(v, sb, false, file_name, new_file_name, replace, seconds).0;
            let p = inode::inode_at(v2.disk, sb, v2.gdt, dir_num);
            let r = dir::dir_entries(v2.disk, sb, p->Ok_0);
            &&& p is Ok
            &&& r is Ok
            &&& dir::first_named(e, from) is Some
            &&& dir::first_named(r->Ok_0, to) == dir::first_named(e, from)
            &&& dir::first_named(r->Ok_0, from) is None
            &&& forall|other: Seq<char>|
                other != from && other != to ==> #[trigger] dir::first_named(r->Ok_0, other)
                    == dir::first_named(e, other)
        }),
{
    let e = dir::dir_entries(
        v.disk,
        sb,
        volume::inode_now(requests::at_rest(v), sb, dir_num),
    )->Ok_0;
    let (k, j) = lemma_moved_within(v, sb, dir_num, d, from, to, seconds);
    let (num, file_type) = dir_write::found(
        v.disk,
        sb,
        v.gdt,
        dir_num,
        Query::Named(dir_write::name_bytes(from)),
    )->Ok_0->Some_0;
    let x = EntryView { inode_num: num, name: to, file_type };
    let f = clears::rest(v, sb, dir_num, to);
    clears::lemma_cleared(v, sb, dir_num, d, to, v.w.blocks);
    lemma_list_renamed(f, k, x, j, from);
    let a = choose|a: int|
        0 <= a < e.len() && #[trigger] e[a] == (EntryView {
            inode_num: num,
            name: from,
            file_type,
        });
    lemma_only_one_is_found(e, from, a);
}

/// Whether two directories hold nothing in common but perhaps the block of their
/// inodes, where each has a record of its own.
pub open spec fn strangers(
    st: FsState,
    sb: Superblock,
    src: u32,
    ds: nat,
    dst: u32,
    dd: nat,
) -> bool {
    let t = volume::table_block(st.gdt, sb, src);
    &&& inode_write::apart(sb, st.gdt, src, dst)
    &&& t == volume::table_block(st.gdt, sb, dst) || append::foreign(st, sb, dst, dd, t)
    &&& forall|b: u64| #[trigger]
        names::held(st, sb, src, ds, b) && b != t ==> append::foreign(st, sb, dst, dd, b)
}

/// A directory is as it was, as a transaction sees it, after a name went into
/// another.
#[verifier::rlimit(100)]
pub proof fn lemma_other_dir(
    st: FsState,
    s: FsState,
    sb: Superblock,
    src: u32,
    ds: nat,
    dst: u32,
    dd: nat,
    log: Seq<u64>,
)
    requires
        volume::sound_file(st, sb, src, ds),
        volume::sound_file(st, sb, dst, dd),
        append::clear_of(st, sb, src, ds, log),
        strangers(st, sb, src, ds, dst, dd),
        pins::whole(s, sb),
        s.disk.len() == st.disk.len(),
        ({
            let t = volume::table_block(st.gdt, sb, dst);
            let x = fs_state::fetched(s.disk, s.txn.blocks, sb.block_size, t);
            &&& x is Ok
            &&& volume::same_beside(
                x->Ok_0,
                block_device::block_at(st.disk, sb.block_size, t)->Ok_0,
                sb,
                dst,
            )
        }),
        forall|b: u64| #[trigger]
            append::foreign(st, sb, dst, dd, b) ==> volume::untouched(st, s, sb.block_size, b),
    ensures
        ({
            let t = volume::table_block(st.gdt, sb, src);
            let o = inode::slot_offset(sb, src);
            let x = fs_state::fetched(s.disk, s.txn.blocks, sb.block_size, t);
            &&& x is Ok
            &&& inode::live_inode(x->Ok_0.subrange(o, o + 128), src) == inode::inode_at(
                st.disk,
                sb,
                st.gdt,
                src,
            )
        }),
        inode::inode_in_txn(s.disk, sb, st.gdt, s.txn.blocks, src) == inode::inode_at(
            st.disk,
            sb,
            st.gdt,
            src,
        ),
        dirs::sound_dir(s, sb, volume::inode_now(st, sb, src), ds, log),
        extent::tree_leaves(
            s.disk,
            sb.block_size,
            volume::inode_now(st, sb, src).block_data,
            block_device::sectors(s.disk) as nat,
        )->Ok_0 == volume::extents_now(st, sb, src),
        forall|b: u64| #[trigger]
            tree::within(
                s.disk,
                sb.block_size,
                volume::inode_now(st, sb, src).block_data,
                ds,
                b,
            ) ==> volume::node_block(st, sb, src, ds, b),
{
    let bs = sb.block_size;
    let t = volume::table_block(st.gdt, sb, src);
    let i = volume::inode_now(st, sb, src);
    let hops = block_device::sectors(st.disk) as nat;
    volume::lemma_slot_read(st, sb, src);
    volume::lemma_slot_read(st, sb, dst);
    volume::lemma_extents(st, sb, src, ds);
    dirs::lemma_sound_dir(st, sb, src, ds, log);
    reveal(volume::agrees);
    if t == volume::table_block(st.gdt, sb, dst) {
        names::lemma_record_beside(
            fs_state::fetched(s.disk, s.txn.blocks, bs, t)->Ok_0,
            block_device::block_at(st.disk, bs, t)->Ok_0,
            sb,
            dst,
            src,
        );
    } else {
        assert(volume::untouched(st, s, bs, t));
    }
    lemma_txn_inode(s, sb, st.gdt, src);
    assert forall|b: u64| #[trigger] tree::within(st.disk, bs, i.block_data, ds, b) implies
        block_device::block_at(s.disk, bs, b) == block_device::block_at(st.disk, bs, b)
        && volume::agrees(s, bs, b) by {
        assert(volume::node_block(st, sb, src, ds, b));
        assert(volume::kept_apart(st, sb, src, b));
        assert(names::held(st, sb, src, ds, b));
        assert(append::foreign(st, sb, dst, dd, b));
        assert(volume::agrees(st, bs, b));
    }
    tree::law_depends_on_nodes(
        st.disk,
        s.disk,
        bs,
        i.block_data,
        ds,
        0,
        tree::LOGICAL_END as int,
        hops,
    );
}

/// The state of a rename to another directory after the old name went out.
pub open spec fn taken_out(
    v: VolState,
    sb: Superblock,
    src: u32,
    from: Seq<char>,
    dst: u32,
    to: Seq<char>,
) -> FsState {
    dir_write::removed(between(v, sb, src, from, dst, to), sb, v.gdt, src, from).0
}

/// Whether an entry of a sound directory can be moved to another one so that it is
/// found: under a name that is free there, or can make way.
pub open spec fn can_move(
    v: VolState,
    sb: Superblock,
    src: u32,
    ds: nat,
    from: Seq<char>,
    dst: u32,
    dd: nat,
    to: Seq<char>,
    log: Seq<u64>,
) -> bool {
    let st = requests::at_rest(v);
    let i = volume::inode_now(st, sb, src);
    let h = volume::inode_now(st, sb, dst);
    let e = dir::dir_entries(v.disk, sb, i);
    let f = dir::dir_entries(v.disk, sb, h);
    &&& volume::sound_file(st, sb, src, ds)
    &&& names::may_grow(st, sb, dst, dd)
    &&& append::clear_of(st, sb, src, ds, log)
    &&& append::clear_of(st, sb, dst, dd, log)
    &&& strangers(st, sb, src, ds, dst, dd)
    &&& e is Ok
    &&& dirs::all_fit(v.disk, sb, i, dir::dir_blocks(sb, i))
    &&& f is Ok
    &&& clears::may_take(v, sb, dst, to)
    &&& dirs::all_fit(v.disk, sb, h, dir::dir_blocks(sb, h))
    &&& can_go(v, sb, src, from, dst, to)
}

/// A rename that can be done puts the new name in and takes the old one out.
pub proof fn lemma_two_steps(
    v: VolState,
    sb: Superblock,
    src: u32,
    ds: nat,
    from: Seq<char>,
    dst: u32,
    dd: nat,
    to: Seq<char>,
    log: Seq<u64>,
)
    requires
        can_move(v, sb, src, ds, from, dst, dd, to, log),
        src != dst,
        rename::shifted(v, sb, src, from, dst, to).1 is Ok,
    ensures
        ({
            let st = requests::at_rest(v);
            let q = dir_write::found(
                v.disk,
                sb,
                v.gdt,
                src,
                Query::Named(dir_write::name_bytes(from)),
            );
            let (num, file_type) = q->Ok_0->Some_0;
            let s2 = between(v, sb, src, from, dst, to);
            let s3 = taken_out(v, sb, src, from, dst, to);
            let s4 = if moves_dir(v, sb, src, from) {
                dir_write::reparented(s3, sb, v.gdt, num, dst)
            } else {
                (s3, Ok(()))
            };
            let s5 = dir_write::dropped(
                s4.0,
                sb,
                v.gdt,
                dir_write::shared(v.disk, sb, v.gdt, dst, to),
            );
            &&& q is Ok
            &&& q->Ok_0 is Some
            &&& inode::inode_at(v.disk, sb, v.gdt, num) is Ok
            &&& dir_write::name_bytes(to).len() <= 255
            &&& dir_write::displaced(st, sb, v.gdt, dst, to).1 is Ok
            &&& dir_write::inserted(
                clears::cleared(v, sb, dst, to),
                sb,
                v.gdt,
                dst,
                dir_write::name_bytes(to),
                num,
                file_type,
            ).1 is Ok
            &&& dir_write::removed(s2, sb, v.gdt, src, from).1 is Ok
            &&& s4.1 is Ok
            &&& s5.1 is Ok
            &&& rename::shifted(v, sb, src, from, dst, to) == fsp_impl::ended(
                fs_context::after(v, s5.0),
                s5.0.txn,
            )
        }),
{
}

/// After the new name made way, both directories of a move are sound, and hold
/// nothing in common.
pub proof fn lemma_way_made(
    v: VolState,
    sb: Superblock,
    src: u32,
    ds: nat,
    from: Seq<char>,
    dst: u32,
    dd: nat,
    to: Seq<char>,
    log: Seq<u64>,
)
    requires
        can_move(v, sb, src, ds, from, dst, dd, to, log),
        dir_write::displaced(requests::at_rest(v), sb, v.gdt, dst, to).1 is Ok,
    ensures
        ({
            let st = requests::at_rest(v);
            let s = clears::cleared(v, sb, dst, to);
            &&& s.disk == v.disk
            &&& s.gdt == v.gdt
            &&& pins::whole(s, sb)
            &&& volume::sees(s, sb.block_size, log, settled(s, sb))
            &&& dir::dir_entries(settled(s, sb), sb, volume::inode_now(s, sb, dst)) is Ok
            &&& volume::sound_file(s, sb, src, ds)
            &&& names::may_grow(s, sb, dst, dd)
            &&& append::clear_of(s, sb, src, ds, log)
            &&& append::clear_of(s, sb, dst, dd, log)
            &&& strangers(s, sb, src, ds, dst, dd)
            &&& forall|b: u64| #[trigger]
                append::foreign(s, sb, dst, dd, b) == append::foreign(st, sb, dst, dd, b)
            &&& forall|b: u64| #[trigger]
                append::foreign(s, sb, src, ds, b) == append::foreign(st, sb, src, ds, b)
            &&& forall|c: u64|
                append::foreign(s, sb, dst, dd, c) ==> #[trigger] volume::agrees(
                    s,
                    sb.block_size,
                    c,
                )
        }),
{
    let st = requests::at_rest(v);
    let s = clears::cleared(v, sb, dst, to);
    clears::lemma_cleared(v, sb, dst, dd, to, log);
    clears::lemma_same_view(st, s, sb, dst, dd);
    assert forall|b: u64|
        b == volume::table_block(st.gdt, sb, src) || volume::node_block(
            st,
            sb,
            src,
            ds,
            b,
        ) implies #[trigger] volume::agrees(s, sb.block_size, b) by {
        assert(names::held(st, sb, src, ds, b));
        if volume::node_block(st, sb, src, ds, b) {
            assert(volume::kept_apart(st, sb, src, b));
        }
    }
    clears::lemma_same_view(st, s, sb, src, ds);
    assert forall|b: u64| #[trigger] log.contains(b) implies append::bystander(s, sb, src, ds, b)
        && append::bystander(s, sb, dst, dd, b) by {
        assert(append::bystander(st, sb, src, ds, b));
        assert(append::bystander(st, sb, dst, dd, b));
    }
    assert forall|b: u64| #[trigger]
        names::held(s, sb, src, ds, b) && b != volume::table_block(
            s.gdt,
            sb,
            src,
        ) implies append::foreign(s, sb, dst, dd, b) by {
        assert(names::held(st, sb, src, ds, b));
        assert(append::foreign(st, sb, dst, dd, b));
    }
}

/// Moving an entry to another directory: once the transaction's blocks are in
/// place, but for `log`, the list there has it under its new name, at the first
/// place that this gives, and the list here lost it, at the second.
#[verifier::rlimit(100)]
pub proof fn lemma_moved_across(
    v: VolState,
    sb: Superblock,
    src: u32,
    ds: nat,
    from: Seq<char>,
    dst: u32,
    dd: nat,
    to: Seq<char>,
    log: Seq<u64>,
    disk: Seq<u8>,
) -> (r: (int, int))
    requires
        can_move(v, sb, src, ds, from, dst, dd, to, log),
        ({
            let st = requests::at_rest(v);
            let q = dir_write::found(
                v.disk,
                sb,
                v.gdt,
                src,
                Query::Named(dir_write::name_bytes(from)),
            );
            let (num, file_type) = q->Ok_0->Some_0;
            let s2 = between(v, sb, src, from, dst, to);
            &&& q is Ok
            &&& q->Ok_0 is Some
            &&& dir_write::name_bytes(to).len() <= 255
            &&& dir_write::displaced(st, sb, v.gdt, dst, to).1 is Ok
            &&& dir_write::inserted(
                clears::cleared(v, sb, dst, to),
                sb,
                v.gdt,
                dst,
                dir_write::name_bytes(to),
                num,
                file_type,
            ).1 is Ok
            &&& dir_write::removed(s2, sb, v.gdt, src, from).1 is Ok
            &&& s2.disk.len() % 512 == 0
            &&& forall|x: int|
                0 <= x < s2.txn.blocks.len() ==> block_device::block_at(
                    s2.disk,
                    sb.block_size,
                    (#[trigger] s2.txn.blocks[x]).0,
                ) is Ok
        }),
        volume::sees(taken_out(v, sb, src, from, dst, to), sb.block_size, log, disk),
    ensures
        ({
            let st = requests::at_rest(v);
            let e = dir::dir_entries(v.disk, sb, volume::inode_now(st, sb, src))->Ok_0;
            let f = clears::rest(v, sb, dst, to);
            let (num, file_type) = dir_write::found(
                v.disk,
                sb,
                v.gdt,
                src,
                Query::Named(dir_write::name_bytes(from)),
            )->Ok_0->Some_0;
            let p = inode::inode_at(disk, sb, v.gdt, src);
            let q = inode::inode_at(disk, sb, v.gdt, dst);
            let x = EntryView { inode_num: num, name: to, file_type };
            let (k, j) = r;
            &&& volume::same_layout(v.gdt, taken_out(v, sb, src, from, dst, to).gdt)
            &&& p == inode::inode_at(v.disk, sb, v.gdt, src)
            &&& 0 <= k <= f.len()
            &&& 0 <= j < e.len()
            &&& e[j].name == from
            &&& p is Ok
            &&& q is Ok
            &&& dir::dir_entries(disk, sb, p->Ok_0) == Ok::<Seq<EntryView>, DirError>(
                e.remove(j),
            )
            &&& dir::dir_entries(disk, sb, q->Ok_0) == Ok::<Seq<EntryView>, DirError>(
                f.insert(k, x),
            )
            &&& exists|a: int|
                0 <= a < e.len() && #[trigger] e[a] == (EntryView {
                    inode_num: num,
                    name: from,
                    file_type,
                })
        }),
{
    let bs = sb.block_size;
    let st = requests::at_rest(v);
    let i = volume::inode_now(st, sb, src);
    let n = dir::dir_blocks(sb, i);
    let e = dir::dir_entries(v.disk, sb, i)->Ok_0;
    let t = volume::table_block(st.gdt, sb, src);
    let old_name = dir_write::name_bytes(from);
    let new_name = dir_write::name_bytes(to);
    requests::lemma_at_rest(v, sb, src);
    text::law_encoded_is_read(from);
    let (num, file_type) = dir_write::found(
        v.disk,
        sb,
        v.gdt,
        src,
        Query::Named(old_name),
    )->Ok_0->Some_0;
    let a = lemma_found_is_listed(v.disk, sb, i, old_name, 0, n);
    let s2 = between(v, sb, src, from, dst, to);
    let s1 = clears::cleared(v, sb, dst, to);
    lemma_way_made(v, sb, src, ds, from, dst, dd, to, log);
    dirs::lemma_entered_frame(s1, sb, dst, dd, new_name, num, file_type);
    pins::lemma_entered(s1, sb, dst, new_name, num, file_type);
    lemma_other_dir(s1, s2, sb, src, ds, dst, dd, log);
    let (l, data) = dirs::lemma_removed_where(s2, sb, i, from, 0, n);
    let q = dirs::place(s2.disk, sb, i, l)->Ok_0->Some_0;
    let s3 = taken_out(v, sb, src, from, dst, to);
    assert(s3 == fs_state::pin(s2, q, data));
    lemma_settled(s2, sb, log);
    let mid = settled(s2, sb);
    dirs::lemma_dir_blocks(sb, i);
    tree::law_found_as_listed(
        s2.disk,
        bs,
        i.block_data,
        ds,
        0,
        tree::LOGICAL_END as int,
        block_device::sectors(s2.disk) as nat,
        l as u64,
    );
    assert(extent::mapped(volume::extents_now(st, sb, src), l as u64) == Some(q));
    assert(volume::kept_apart(s1, sb, src, q));
    assert(names::held(s1, sb, src, ds, q));
    assert(append::foreign(s1, sb, dst, dd, q));
    let before = settled(s1, sb);
    let k = lemma_other_list(
        s1,
        s2,
        s3,
        sb,
        dst,
        dd,
        to,
        num,
        file_type,
        log,
        q,
        data,
        before,
        disk,
    );
    lemma_unchanged_list(s1, s2, sb, src, ds, dst, dd, log, mid);
    let j = dirs::law_removed(s2, sb, i, ds, from, log, mid, disk);
    volume::lemma_slot_read(st, sb, src);
    if log.contains(t) {
        assert(append::bystander(st, sb, src, ds, t));
    }
    writer::lemma_pin(s2.txn.blocks, q, data, t);
    volume::lemma_record_in_block(disk, sb, v.gdt, src);
    volume::lemma_slot_read(st, sb, dst);
    assert(e[a] == (EntryView { inode_num: num, name: from, file_type }));
    (k, j)
}

/// What is found in both directories after an entry was moved.
pub proof fn lemma_lists_after(
    v: VolState,
    sb: Superblock,
    src: u32,
    ds: nat,
    from: Seq<char>,
    dst: u32,
    dd: nat,
    to: Seq<char>,
    log: Seq<u64>,
    disk: Seq<u8>,
)
    requires
        can_move(v, sb, src, ds, from, dst, dd, to, log),
        ({
            let st = requests::at_rest(v);
            let q = dir_write::found(
                v.disk,
                sb,
                v.gdt,
                src,
                Query::Named(dir_write::name_bytes(from)),
            );
            let (num, file_type) = q->Ok_0->Some_0;
            let s2 = between(v, sb, src, from, dst, to);
            &&& q is Ok
            &&& q->Ok_0 is Some
            &&& dir_write::name_bytes(to).len() <= 255
            &&& dir_write::displaced(st, sb, v.gdt, dst, to).1 is Ok
            &&& dir_write::inserted(
                clears::cleared(v, sb, dst, to),
                sb,
                v.gdt,
                dst,
                dir_write::name_bytes(to),
                num,
                file_type,
            ).1 is Ok
            &&& dir_write::removed(s2, sb, v.gdt, src, from).1 is Ok
            &&& s2.disk.len() % 512 == 0
            &&& forall|x: int|
                0 <= x < s2.txn.blocks.len() ==> block_device::block_at(
                    s2.disk,
                    sb.block_size,
                    (#[trigger] s2.txn.blocks[x]).0,
                ) is Ok
        }),
        volume::sees(taken_out(v, sb, src, from, dst, to), sb.block_size, log, disk),
        names::listed_once(
            dir::dir_entries(
                v.disk,
                sb,
                volume::inode_now(requests::at_rest(v), sb, src),
            )->Ok_0,
            from,
        ),
    ensures
        ({
            let st = requests::at_rest(v);
            let e = dir::dir_entries(v.disk, sb, volume::inode_now(st, sb, src))->Ok_0;
            let f = dir::dir_entries(v.disk, sb, volume::inode_now(st, sb, dst))->Ok_0;
            let num = dir_write::found(
                v.disk,
                sb,
                v.gdt,
                src,
                Query::Named(dir_write::name_bytes(from)),
            )->Ok_0->Some_0.0;
            let p = inode::inode_at(disk, sb, v.gdt, src);
            let q = inode::inode_at(disk, sb, v.gdt, dst);
            let e2 = dir::dir_entries(disk, sb, p->Ok_0);
            let f2 = dir::dir_entries(disk, sb, q->Ok_0);
            &&& volume::same_layout(v.gdt, taken_out(v, sb, src, from, dst, to).gdt)
            &&& p == inode::inode_at(v.disk, sb, v.gdt, src)
            &&& p is Ok
            &&& q is Ok
            &&& e2 is Ok
            &&& f2 is Ok
            &&& dir::first_named(e, from) == Some(num)
            &&& dir::first_named(f2->Ok_0, to) == Some(num)
            &&& dir::first_named(e2->Ok_0, from) is None
            &&& forall|other: Seq<char>|
                other != from ==> #[trigger] dir::first_named(e2->Ok_0, other)
                    == dir::first_named(e, other)
            &&& forall|other: Seq<char>|
                other != to ==> #[trigger] dir::first_named(f2->Ok_0, other)
                    == dir::first_named(f, other)
        }),
{
    let st = requests::at_rest(v);
    let e = dir::dir_entries(v.disk, sb, volume::inode_now(st, sb, src))->Ok_0;
    let f = dir::dir_entries(v.disk, sb, volume::inode_now(st, sb, dst))->Ok_0;
    let (num, file_type) = dir_write::found(
        v.disk,
        sb,
        v.gdt,
        src,
        Query::Named(dir_write::name_bytes(from)),
    )->Ok_0->Some_0;
    let (k, j) = lemma_moved_across(v, sb, src, ds, from, dst, dd, to, log, disk);
    clears::lemma_cleared(v, sb, dst, dd, to, log);
    let rest = clears::rest(v, sb, dst, to);
    let x = EntryView { inode_num: num, name: to, file_type };
    let a = choose|a: int|
        0 <= a < e.len() && #[trigger] e[a] == (EntryView {
            inode_num: num,
            name: from,
            file_type,
        });
    lemma_only_one_is_found(e, from, a);
    names::lemma_only_one(e, from, j);
    dirs::law_unlisted_is_not_found(e, j, from);
    dirs::law_listed_is_found(rest, k, x, to);
    assert forall|other: Seq<char>| other != from implies #[trigger] dir::first_named(
        e.remove(j),
        other,
    ) == dir::first_named(e, other) by {
        dirs::law_unlisted_is_not_found(e, j, other);
    }
    assert forall|other: Seq<char>| other != to implies #[trigger] dir::first_named(
        rest.insert(k, x),
        other,
    ) == dir::first_named(f, other) by {
        dirs::law_listed_is_found(rest, k, x, other);
    }
}

/// The list of the directory that a name went into, after a block that it does
/// not hold was pinned too.
proof fn lemma_other_list(
    st: FsState,
    s2: FsState,
    s3: FsState,
    sb: Superblock,
    dst: u32,
    dd: nat,
    to: Seq<char>,
    num: u32,
    file_type: u8,
    log: Seq<u64>,
    q: u64,
    data: Seq<u8>,
    before: Seq<u8>,
    disk: Seq<u8>,
) -> (k: int)
    requires
        names::may_grow(st, sb, dst, dd),
        append::clear_of(st, sb, dst, dd, log),
        num != 0,
        dir_write::name_bytes(to).len() <= 255,
        dir_write::inserted(
            st,
            sb,
            st.gdt,
            dst,
            dir_write::name_bytes(to),
            num,
            file_type,
        ) == (s2, Ok::<(), dir_write::DirWriteError>(())),
        s3 == fs_state::pin(s2, q, data),
        append::foreign(st, sb, dst, dd, q),
        volume::sees(st, sb.block_size, log, before),
        volume::sees(s3, sb.block_size, log, disk),
        dir::dir_entries(before, sb, volume::inode_now(st, sb, dst)) is Ok,
    ensures
        ({
            let f = dir::dir_entries(before, sb, volume::inode_now(st, sb, dst))->Ok_0;
            let r = inode::inode_at(disk, sb, st.gdt, dst);
            &&& 0 <= k <= f.len()
            &&& r is Ok
            &&& dir::dir_entries(disk, sb, r->Ok_0) == Ok::<Seq<EntryView>, DirError>(
                f.insert(k, EntryView { inode_num: num, name: to, file_type }),
            )
        }),
{
    let bs = sb.block_size;
    let more = log.push(q);
    assert forall|b: u64| #[trigger] more.contains(b) implies append::bystander(
        st,
        sb,
        dst,
        dd,
        b,
    ) && append::unmapped(volume::extents_now(st, sb, dst), b) by {
        if b != q {
            let x = choose|x: int| 0 <= x < more.len() && more[x] == b;
            assert(log[x] == b);
            assert(log.contains(b));
        }
    }
    assert forall|c: u64| #![trigger block_device::block_at(disk, bs, c)]
        !more.contains(c) implies block_device::block_at(disk, bs, c) == fs_state::fetched(
        s2.disk,
        s2.txn.blocks,
        bs,
        c,
    ) by {
        assert(more[log.len() as int] == q);
        if log.contains(c) {
            let x = choose|x: int| 0 <= x < log.len() && log[x] == c;
            assert(more[x] == c);
        }
        writer::lemma_pin(s2.txn.blocks, q, data, c);
    }
    assert(volume::sees(st, bs, more, before)) by {
        assert forall|c: u64| #![trigger block_device::block_at(before, bs, c)]
            !more.contains(c) implies block_device::block_at(before, bs, c)
            == fs_state::fetched(st.disk, st.txn.blocks, bs, c) by {
            if log.contains(c) {
                let x = choose|x: int| 0 <= x < log.len() && log[x] == c;
                assert(more[x] == c);
            }
        }
    }
    dirs::law_entered(st, sb, dst, dd, to, num, file_type, more, before, disk)
}

/// The list of the directory that a name is about to leave is what it was.
proof fn lemma_unchanged_list(
    st: FsState,
    s: FsState,
    sb: Superblock,
    src: u32,
    ds: nat,
    dst: u32,
    dd: nat,
    log: Seq<u64>,
    mid: Seq<u8>,
)
    requires
        volume::sound_file(st, sb, src, ds),
        append::clear_of(st, sb, src, ds, log),
        strangers(st, sb, src, ds, dst, dd),
        forall|c: u64| append::foreign(st, sb, dst, dd, c) ==> #[trigger] volume::agrees(
            st,
            sb.block_size,
            c,
        ),
        forall|b: u64| #[trigger]
            append::foreign(st, sb, dst, dd, b) ==> volume::untouched(st, s, sb.block_size, b),
        s.disk.len() == st.disk.len(),
        volume::sees(s, sb.block_size, log, mid),
    ensures
        ({
            let i = volume::inode_now(st, sb, src);
            dir::dir_entries(mid, sb, i) == dir::dir_entries(st.disk, sb, i)
        }),
{
    let bs = sb.block_size;
    let t = volume::table_block(st.gdt, sb, src);
    let m = FsState { disk: mid, ..st };
    assert forall|c: u64| #![trigger block_device::block_at(m.disk, bs, c)]
        names::held(st, sb, src, ds, c) && c != t implies block_device::block_at(m.disk, bs, c)
        == block_device::block_at(st.disk, bs, c) by {
        assert(append::foreign(st, sb, dst, dd, c));
        if log.contains(c) {
            assert(append::bystander(st, sb, src, ds, c));
        }
        reveal(volume::agrees);
        assert(volume::agrees(st, bs, c));
    }
    names::lemma_same_listing(st, m, sb, src, ds, log, t);
}

/// The old name went out of a block of the directory that it was in.
pub proof fn lemma_out(
    v: VolState,
    sb: Superblock,
    src: u32,
    ds: nat,
    from: Seq<char>,
    dst: u32,
    dd: nat,
    to: Seq<char>,
    log: Seq<u64>,
)
    requires
        can_move(v, sb, src, ds, from, dst, dd, to, log),
        ({
            let st = requests::at_rest(v);
            let q = dir_write::found(
                v.disk,
                sb,
                v.gdt,
                src,
                Query::Named(dir_write::name_bytes(from)),
            );
            let (num, file_type) = q->Ok_0->Some_0;
            let s2 = between(v, sb, src, from, dst, to);
            &&& q is Ok
            &&& q->Ok_0 is Some
            &&& dir_write::displaced(st, sb, v.gdt, dst, to).1 is Ok
            &&& dir_write::inserted(
                clears::cleared(v, sb, dst, to),
                sb,
                v.gdt,
                dst,
                dir_write::name_bytes(to),
                num,
                file_type,
            ).1 is Ok
            &&& dir_write::removed(s2, sb, v.gdt, src, from).1 is Ok
        }),
    ensures
        ({
            let st = requests::at_rest(v);
            let s2 = between(v, sb, src, from, dst, to);
            let s3 = taken_out(v, sb, src, from, dst, to);
            &&& pins::whole(s3, sb)
            &&& s2.disk == s3.disk
            &&& s2.gdt == s3.gdt
            &&& s2.disk.len() == v.disk.len()
            &&& s2.disk.len() % 512 == 0
            &&& s2.txn.blocks.len() <= s3.txn.blocks.len()
            &&& forall|x: int|
                0 <= x < s2.txn.blocks.len() ==> (#[trigger] s3.txn.blocks[x]).0
                    == s2.txn.blocks[x].0
            &&& forall|b: u64| #[trigger]
                append::foreign(st, sb, src, ds, b) ==> fs_state::fetched(
                    s3.disk,
                    s3.txn.blocks,
                    sb.block_size,
                    b,
                ) == fs_state::fetched(s2.disk, s2.txn.blocks, sb.block_size, b)
            &&& fs_state::fetched(
                s3.disk,
                s3.txn.blocks,
                sb.block_size,
                volume::table_block(st.gdt, sb, src),
            ) == fs_state::fetched(
                s2.disk,
                s2.txn.blocks,
                sb.block_size,
                volume::table_block(st.gdt, sb, src),
            )
            &&& volume::same_layout(st.gdt, s2.gdt)
        }),
{
    let bs = sb.block_size;
    let st = requests::at_rest(v);
    let i = volume::inode_now(st, sb, src);
    let n = dir::dir_blocks(sb, i);
    let old_name = dir_write::name_bytes(from);
    let new_name = dir_write::name_bytes(to);
    requests::lemma_at_rest(v, sb, src);
    let (num, file_type) = dir_write::found(
        v.disk,
        sb,
        v.gdt,
        src,
        Query::Named(old_name),
    )->Ok_0->Some_0;
    let s2 = between(v, sb, src, from, dst, to);
    let s1 = clears::cleared(v, sb, dst, to);
    lemma_way_made(v, sb, src, ds, from, dst, dd, to, log);
    dirs::lemma_entered_frame(s1, sb, dst, dd, new_name, num, file_type);
    pins::lemma_entered(s1, sb, dst, new_name, num, file_type);
    lemma_other_dir(s1, s2, sb, src, ds, dst, dd, log);
    let (l, data) = dirs::lemma_removed_where(s2, sb, i, from, 0, n);
    let q = dirs::place(s2.disk, sb, i, l)->Ok_0->Some_0;
    let s3 = taken_out(v, sb, src, from, dst, to);
    assert(s3 == fs_state::pin(s2, q, data));
    pins::lemma_pinned(s2, sb, q, data);
    lemma_still_pinned(s2.txn.blocks, q, data);
    dirs::lemma_dir_blocks(sb, i);
    tree::law_found_as_listed(
        s2.disk,
        bs,
        i.block_data,
        ds,
        0,
        tree::LOGICAL_END as int,
        block_device::sectors(s2.disk) as nat,
        l as u64,
    );
    assert(extent::mapped(volume::extents_now(st, sb, src), l as u64) == Some(q));
    assert(volume::kept_apart(s1, sb, src, q));
    writer::lemma_pin(s2.txn.blocks, q, data, volume::table_block(st.gdt, sb, src));
    assert forall|b: u64| #[trigger] append::foreign(st, sb, src, ds, b) implies fs_state::fetched(
        s3.disk,
        s3.txn.blocks,
        bs,
        b,
    ) == fs_state::fetched(s2.disk, s2.txn.blocks, bs, b) by {
        writer::lemma_pin(s2.txn.blocks, q, data, b);
    }
}

/// What both directories of a move list is the same where the devices differ in
/// blocks that a rename may change beside those of its entries: the directory that the
/// name left.
#[verifier::rlimit(100)]
proof fn lemma_src_carried(
    v: VolState,
    sb: Superblock,
    src: u32,
    ds: nat,
    from: Seq<char>,
    dst: u32,
    dd: nat,
    to: Seq<char>,
    log: Seq<u64>,
    a: Seq<u8>,
    b: Seq<u8>,
)
    requires
        carries(v, sb, src, ds, from, dst, dd, to, log, a, b),
        shares::spares(v, sb, src, from, dst, to, src, ds),
        shares::keeps_record(v, sb, src, dst, src, a, b),
        inode::inode_at(a, sb, v.gdt, src) == inode::inode_at(v.disk, sb, v.gdt, src),
    ensures
        ({
            let i = volume::inode_now(requests::at_rest(v), sb, src);
            let p = inode::inode_at(b, sb, v.gdt, src);
            &&& p is Ok
            &&& dir::dir_entries(b, sb, p->Ok_0) == dir::dir_entries(a, sb, i)
        }),
{
    let bs = sb.block_size;
    let st = requests::at_rest(v);
    let i = volume::inode_now(st, sb, src);
    let t = volume::table_block(st.gdt, sb, src);
    let n = dir::dir_blocks(sb, i);
    let new_name = dir_write::name_bytes(to);
    requests::lemma_at_rest(v, sb, src);
    let (num, file_type) = dir_write::found(
        v.disk,
        sb,
        v.gdt,
        src,
        Query::Named(dir_write::name_bytes(from)),
    )->Ok_0->Some_0;
    let s1 = clears::cleared(v, sb, dst, to);
    let s2 = between(v, sb, src, from, dst, to);
    let s3 = taken_out(v, sb, src, from, dst, to);
    lemma_way_made(v, sb, src, ds, from, dst, dd, to, log);
    dirs::lemma_entered_frame(s1, sb, dst, dd, new_name, num, file_type);
    pins::lemma_entered(s1, sb, dst, new_name, num, file_type);
    lemma_other_dir(s1, s2, sb, src, ds, dst, dd, log);
    let (l, data) = dirs::lemma_removed_where(s2, sb, i, from, 0, n);
    let q = dirs::place(s2.disk, sb, i, l)->Ok_0->Some_0;
    assert(s3 == fs_state::pin(s2, q, data));
    dirs::lemma_dir_blocks(sb, i);
    let hops = block_device::sectors(s2.disk) as nat;
    tree::law_found_as_listed(
        s2.disk,
        bs,
        i.block_data,
        ds,
        0,
        tree::LOGICAL_END as int,
        hops,
        l as u64,
    );
    let w = extent::tree_leaves(s2.disk, bs, i.block_data, hops)->Ok_0;
    assert(extent::mapped(w, l as u64) == Some(q));
    assert forall|c: u64| #[trigger]
        shares::strays(v, sb, src, from, dst, to, c) implies !tree::within(
        s2.disk,
        bs,
        i.block_data,
        ds,
        c,
    ) && append::unmapped(w, c) by {
        shares::lemma_strays(v, sb, src, from, dst, to, src, ds, c);
        if append::foreign(st, sb, src, ds, c) {
            assert(append::foreign(s1, sb, src, ds, c));
        }
        if tree::within(s2.disk, bs, i.block_data, ds, c) {
            assert(volume::node_block(s1, sb, src, ds, c));
            assert(volume::kept_apart(s1, sb, src, c));
        }
        assert forall|y: u64| (#[trigger] extent::mapped(w, y)) != Some(c) by {
            if extent::mapped(w, y) == Some(c) {
                assert(volume::kept_apart(s1, sb, src, c));
            }
        }
    }
    assert forall|c: u64| #[trigger]
        tree::within(s2.disk, bs, i.block_data, ds, c) implies block_device::block_at(a, bs, c)
        == block_device::block_at(s2.disk, bs, c) && block_device::block_at(b, bs, c)
        == block_device::block_at(s2.disk, bs, c) by {
        assert(volume::agrees(s2, bs, c));
        reveal(volume::agrees);
        writer::lemma_pin(s2.txn.blocks, q, data, c);
        assert(!shares::strays(v, sb, src, from, dst, to, c));
        assert(block_device::block_at(b, bs, c) == block_device::block_at(a, bs, c));
    }
    assert forall|y: u64| (#[trigger] extent::mapped(w, y)) is Some implies block_device::block_at(
        b,
        bs,
        extent::mapped(w, y)->Some_0,
    ) == block_device::block_at(a, bs, extent::mapped(w, y)->Some_0) by {
        let c = extent::mapped(w, y)->Some_0;
        if shares::strays(v, sb, src, from, dst, to, c) {
            assert(append::unmapped(w, c));
        }
    }
    shares::lemma_kept_list(s2, sb, i, ds, log, b, a);
    shares::lemma_inode_kept(v, sb, src, dst, src, ds, a, b);
    shares::lemma_alike_lists(b, sb, inode::inode_at(b, sb, v.gdt, src)->Ok_0, i);
}

/// The same of the directory that the name went into.
#[verifier::rlimit(100)]
proof fn lemma_dst_carried(
    v: VolState,
    sb: Superblock,
    src: u32,
    ds: nat,
    from: Seq<char>,
    dst: u32,
    dd: nat,
    to: Seq<char>,
    log: Seq<u64>,
    a: Seq<u8>,
    b: Seq<u8>,
)
    requires
        carries(v, sb, src, ds, from, dst, dd, to, log, a, b),
        shares::spares(v, sb, src, from, dst, to, dst, dd),
        shares::keeps_record(v, sb, src, dst, dst, a, b),
    ensures
        ({
            let i = inode::inode_at(a, sb, v.gdt, dst)->Ok_0;
            let p = inode::inode_at(b, sb, v.gdt, dst);
            &&& p is Ok
            &&& dir::dir_entries(b, sb, p->Ok_0) == dir::dir_entries(a, sb, i)
        }),
{
    let bs = sb.block_size;
    let st = requests::at_rest(v);
    let h = volume::inode_now(st, sb, src);
    let n = dir::dir_blocks(sb, h);
    let t = volume::table_block(st.gdt, sb, dst);
    let new_name = dir_write::name_bytes(to);
    requests::lemma_at_rest(v, sb, src);
    let (num, file_type) = dir_write::found(
        v.disk,
        sb,
        v.gdt,
        src,
        Query::Named(dir_write::name_bytes(from)),
    )->Ok_0->Some_0;
    let s1 = clears::cleared(v, sb, dst, to);
    let s2 = between(v, sb, src, from, dst, to);
    let s3 = taken_out(v, sb, src, from, dst, to);
    lemma_way_made(v, sb, src, ds, from, dst, dd, to, log);
    dirs::lemma_entered_frame(s1, sb, dst, dd, new_name, num, file_type);
    pins::lemma_entered(s1, sb, dst, new_name, num, file_type);
    lemma_other_dir(s1, s2, sb, src, ds, dst, dd, log);
    let (l, data) = dirs::lemma_removed_where(s2, sb, h, from, 0, n);
    let q = dirs::place(s2.disk, sb, h, l)->Ok_0->Some_0;
    assert(s3 == fs_state::pin(s2, q, data));
    dirs::lemma_dir_blocks(sb, h);
    tree::law_found_as_listed(
        s2.disk,
        bs,
        h.block_data,
        ds,
        0,
        tree::LOGICAL_END as int,
        block_device::sectors(s2.disk) as nat,
        l as u64,
    );
    assert(extent::mapped(volume::extents_now(s1, sb, src), l as u64) == Some(q));
    assert(volume::kept_apart(s1, sb, src, q));
    assert(names::held(s1, sb, src, ds, q));
    assert(append::foreign(s1, sb, dst, dd, q));
    let d2 = dirs::lemma_entered_sound(s1, sb, dst, dd, new_name, num, file_type, log);
    let i = inode::inode_in_txn(s2.disk, sb, v.gdt, s2.txn.blocks, dst)->Ok_0;
    volume::lemma_slot_read(st, sb, dst);
    lemma_txn_inode(s2, sb, v.gdt, dst);
    if log.contains(t) {
        assert(append::bystander(st, sb, dst, dd, t));
    }
    writer::lemma_pin(s2.txn.blocks, q, data, t);
    assert(block_device::block_at(a, bs, t) == fs_state::fetched(
        s2.disk,
        s2.txn.blocks,
        bs,
        t,
    ));
    volume::lemma_record_in_block(a, sb, v.gdt, dst);
    assert(inode::inode_at(a, sb, v.gdt, dst) == Ok::<InodeView, InodeError>(i));
    let w = extent::tree_leaves(
        s2.disk,
        bs,
        i.block_data,
        block_device::sectors(s2.disk) as nat,
    )->Ok_0;
    assert forall|c: u64| #[trigger]
        shares::strays(v, sb, src, from, dst, to, c) implies !tree::within(
        s2.disk,
        bs,
        i.block_data,
        d2,
        c,
    ) && append::unmapped(w, c) by {
        shares::lemma_strays(v, sb, src, from, dst, to, dst, dd, c);
        trim::lemma_same_groups(st, s2, sb, c);
        if append::foreign(st, sb, dst, dd, c) {
            assert(append::foreign(s1, sb, dst, dd, c));
        }
        if tree::within(s2.disk, bs, i.block_data, d2, c) {
            assert(volume::kept_apart(s2, sb, dst, c));
        }
        assert forall|y: u64| (#[trigger] extent::mapped(w, y)) != Some(c) by {
            if extent::mapped(w, y) == Some(c) {
                assert(volume::kept_apart(s2, sb, dst, c));
            }
        }
    }
    assert forall|c: u64| #[trigger]
        tree::within(s2.disk, bs, i.block_data, d2, c) implies block_device::block_at(a, bs, c)
        == block_device::block_at(s2.disk, bs, c) && block_device::block_at(b, bs, c)
        == block_device::block_at(s2.disk, bs, c) by {
        assert(volume::agrees(s2, bs, c));
        reveal(volume::agrees);
        writer::lemma_pin(s2.txn.blocks, q, data, c);
        assert(!shares::strays(v, sb, src, from, dst, to, c));
        assert(block_device::block_at(b, bs, c) == block_device::block_at(a, bs, c));
    }
    assert forall|y: u64| (#[trigger] extent::mapped(w, y)) is Some implies block_device::block_at(
        b,
        bs,
        extent::mapped(w, y)->Some_0,
    ) == block_device::block_at(a, bs, extent::mapped(w, y)->Some_0) by {
        let c = extent::mapped(w, y)->Some_0;
        if shares::strays(v, sb, src, from, dst, to, c) {
            assert(append::unmapped(w, c));
        }
    }
    shares::lemma_kept_list(s2, sb, i, d2, log, b, a);
    shares::lemma_inode_kept(v, sb, src, dst, dst, dd, a, b);
    shares::lemma_alike_lists(b, sb, inode::inode_at(b, sb, v.gdt, dst)->Ok_0, i);
}

/// Whether device `a` is what a move saw at its end, and `b` is `a` but for the blocks
/// that a rename may change beside those of its entries.
pub open spec fn carries(
    v: VolState,
    sb: Superblock,
    src: u32,
    ds: nat,
    from: Seq<char>,
    dst: u32,
    dd: nat,
    to: Seq<char>,
    log: Seq<u64>,
    a: Seq<u8>,
    b: Seq<u8>,
) -> bool {
    let bs = sb.block_size;
    let st = requests::at_rest(v);
    let q = dir_write::found(
        v.disk,
        sb,
        v.gdt,
        src,
        Query::Named(dir_write::name_bytes(from)),
    );
    let (num, file_type) = q->Ok_0->Some_0;
    let s2 = between(v, sb, src, from, dst, to);
    &&& can_move(v, sb, src, ds, from, dst, dd, to, log)
    &&& can_move(v, sb, src, ds, from, dst, dd, to, v.w.blocks)
    &&& q is Ok
    &&& q->Ok_0 is Some
    &&& dir_write::displaced(st, sb, v.gdt, dst, to).1 is Ok
    &&& dir_write::inserted(
        clears::cleared(v, sb, dst, to),
        sb,
        v.gdt,
        dst,
        dir_write::name_bytes(to),
        num,
        file_type,
    ).1 is Ok
    &&& dir_write::removed(s2, sb, v.gdt, src, from).1 is Ok
    &&& volume::sees(taken_out(v, sb, src, from, dst, to), bs, log, a)
    &&& a.len() == v.disk.len()
    &&& b.len() == v.disk.len()
    &&& forall|c: u64| #![trigger block_device::block_at(b, bs, c)]
        !shares::strays(v, sb, src, from, dst, to, c) ==> block_device::block_at(b, bs, c)
            == block_device::block_at(a, bs, c)
    &&& forall|c: u64| v.w.blocks.contains(c) ==> #[trigger] log.contains(c)
}

/// What both directories list at the end of a move is what they list on the device
/// that the move saw, and so are their inodes.
pub proof fn lemma_carried(
    v: VolState,
    sb: Superblock,
    src: u32,
    ds: nat,
    from: Seq<char>,
    dst: u32,
    dd: nat,
    to: Seq<char>,
    log: Seq<u64>,
    a: Seq<u8>,
    b: Seq<u8>,
)
    requires
        carries(v, sb, src, ds, from, dst, dd, to, log, a, b),
        shares::spares(v, sb, src, from, dst, to, src, ds),
        shares::spares(v, sb, src, from, dst, to, dst, dd),
        shares::keeps_record(v, sb, src, dst, src, a, b),
        shares::keeps_record(v, sb, src, dst, dst, a, b),
        inode::inode_at(a, sb, v.gdt, src) == inode::inode_at(v.disk, sb, v.gdt, src),
    ensures
        ({
            let p = inode::inode_at(a, sb, v.gdt, src);
            let q = inode::inode_at(a, sb, v.gdt, dst);
            let p2 = inode::inode_at(b, sb, v.gdt, src);
            let q2 = inode::inode_at(b, sb, v.gdt, dst);
            &&& p2 is Ok
            &&& q2 is Ok
            &&& dir::dir_entries(b, sb, p2->Ok_0) == dir::dir_entries(a, sb, p->Ok_0)
            &&& dir::dir_entries(b, sb, q2->Ok_0) == dir::dir_entries(a, sb, q->Ok_0)
        }),
{
    lemma_src_carried(v, sb, src, ds, from, dst, dd, to, log, a, b);
    lemma_dst_carried(v, sb, src, ds, from, dst, dd, to, log, a, b);
}

/// An inode is read the same where the groups lie in the same places.
pub proof fn lemma_inode_layout(
    disk: Seq<u8>,
    sb: Superblock,
    a: Seq<GroupDesc>,
    b: Seq<GroupDesc>,
    num: u32,
)
    requires
        volume::same_layout(a, b),
        0 <= inode::group_of(sb, num) < a.len(),
    ensures
        inode::inode_at(disk, sb, a, num) == inode::inode_at(disk, sb, b, num),
{
    let g = inode::group_of(sb, num);
    assert(a[g].inode_table == b[g].inode_table);
}

/// Whether what has the name `from` in directory `src` is a directory.
pub open spec fn moves_dir(v: VolState, sb: Superblock, src: u32, from: Seq<char>) -> bool {
    let (num, _) = dir_write::found(
        v.disk,
        sb,
        v.gdt,
        src,
        Query::Named(dir_write::name_bytes(from)),
    )->Ok_0->Some_0;
    inode::inode_at(v.disk, sb, v.gdt, num)->Ok_0.is_dir()
}

/// A file that was moved to another directory is found there under its new name, as
/// the inode that it was found as before; the old name is not found any more where
/// it was, and every other name is found as before in both directories.
///
/// What had the new name is replaced. Left out is a directory, whose ".." is changed
/// too.
pub proof fn law_moved_is_found(
    v: VolState,
    sb: Superblock,
    file_name: Seq<char>,
    new_file_name: Seq<char>,
    replace: bool,
    seconds: Option<u64>,
    src_path: Seq<char>,
    src: u32,
    ds: nat,
    from: Seq<char>,
    dst_path: Seq<char>,
    dst: u32,
    dd: nat,
    to: Seq<char>,
)
    requires
        create::parted(fsp_impl::volume_path(file_name)) == Some((src_path, from)),
        create::parted(fsp_impl::volume_path(new_file_name)) == Some((dst_path, to)),
        fs_context::resolved(v.disk, sb, v.gdt, src_path) is Ok,
        fs_context::resolved(v.disk, sb, v.gdt, src_path)->Ok_0 == src,
        fs_context::resolved(v.disk, sb, v.gdt, dst_path) is Ok,
        fs_context::resolved(v.disk, sb, v.gdt, dst_path)->Ok_0 == dst,
        can_move(v, sb, src, ds, from, dst, dd, to, v.w.blocks),
        v.w.bs == sb.block_size,
        names::listed_once(
            dir::dir_entries(
                v.disk,
                sb,
                volume::inode_now(requests::at_rest(v), sb, src),
            )->Ok_0,
            from,
        ),
        !moves_dir(v, sb, src, from),
        shares::spares(v, sb, src, from, dst, to, src, ds),
        shares::spares(v, sb, src, from, dst, to, dst, dd),
        rename::renamed(v, sb, false, file_name, new_file_name, replace, seconds).1 is Ok,
    ensures
        ({
            let st = requests::at_rest(v);
            let e = dir::dir_entries(v.disk, sb, volume::inode_now(st, sb, src))->Ok_0;
            let f = dir::dir_entries(v.disk, sb, volume::inode_now(st, sb, dst))->Ok_0;
            let v2 = rename::renamed(v, sb, false, file_name, new_file_name, replace, seconds).0;
            let p = inode::inode_at(v2.disk, sb, v2.gdt, src);
            let q = inode::inode_at(v2.disk, sb, v2.gdt, dst);
            let e2 = dir::dir_entries(v2.disk, sb, p->Ok_0);
            let f2 = dir::dir_entries(v2.disk, sb, q->Ok_0);
            &&& p is Ok
            &&& q is Ok
            &&& e2 is Ok
            &&& f2 is Ok
            &&& dir::first_named(e, from) is Some
            &&& dir::first_named(f2->Ok_0, to) == dir::first_named(e, from)
            &&& dir::first_named(e2->Ok_0, from) is None
            &&& forall|other: Seq<char>|
                other != from ==> #[trigger] dir::first_named(e2->Ok_0, other)
                    == dir::first_named(e, other)
            &&& forall|other: Seq<char>|
                other != to ==> #[trigger] dir::first_named(f2->Ok_0, other)
                    == dir::first_named(f, other)
        }),
{
    let st = requests::at_rest(v);
    let s2 = between(v, sb, src, from, dst, to);
    let s3 = taken_out(v, sb, src, from, dst, to);
    lemma_two_steps(v, sb, src, ds, from, dst, dd, to, v.w.blocks);
    lemma_out(v, sb, src, ds, from, dst, dd, to, v.w.blocks);
    let a = shares::lemma_dropped(v, s3, sb, dst, to);
    assert forall|x: int| 0 <= x < s2.txn.blocks.len() implies block_device::block_at(
        s2.disk,
        sb.block_size,
        (#[trigger] s2.txn.blocks[x]).0,
    ) is Ok by {
        assert(s3.txn.blocks[x].0 == s2.txn.blocks[x].0);
    }
    let v2 = rename::moved(v, sb, src, from, dst, to, seconds).0;
    lemma_lists_after(v, sb, src, ds, from, dst, dd, to, v.w.blocks, a);
    volume::lemma_slot_read(st, sb, src);
    volume::lemma_slot_read(st, sb, dst);
    shares::lemma_finished(v, s3, sb, src, from, dst, to, seconds, src, ds, a);
    shares::lemma_finished(v, s3, sb, src, from, dst, to, seconds, dst, dd, a);
    lemma_carried(v, sb, src, ds, from, dst, dd, to, v.w.blocks, a, v2.disk);
    volume::lemma_slot_read(st, sb, src);
    volume::lemma_slot_read(st, sb, dst);
    lemma_inode_layout(v2.disk, sb, v.gdt, v2.gdt, src);
    lemma_inode_layout(v2.disk, sb, v.gdt, v2.gdt, dst);
}

} // verus!
