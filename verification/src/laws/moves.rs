//! What moving a directory promises of later lookups, once it is committed.
use vstd::prelude::*;
use super::append;
use super::clears;
use super::data;
use super::dirs;
use super::mkdir;
use super::names;
use super::pins;
use super::renames;
use super::requests;
use super::shares;
use super::tree;
use super::volume;
use crate::block_device;
use crate::bytes;
use crate::dir;
use crate::dir::{DirError, EntryView};
use crate::dir_write;
use crate::dir_write::Query;
use crate::extent;
use crate::fs_context;
use crate::fs_context::VolState;
use crate::fs_state;
use crate::fs_state::FsState;
use crate::fsp_impl;
use crate::fsp_impl::create;
use crate::fsp_impl::rename;
use crate::inode;
use crate::inode::InodeView;
use crate::journal::writer;
use crate::superblock::Superblock;
use crate::text;

verus! {

/// The name of the entry that leads to a directory's parent.
pub open spec fn up() -> Seq<u8> {
    seq![46u8, 46u8]
}

/// An entry with another inode number.
pub open spec fn pointed(e: EntryView, num: u32) -> EntryView {
    EntryView { inode_num: num, ..e }
}

/// A block in which the first entry of a name was pointed at another inode lists
/// all else as before. Gives the place of the entry.
#[verifier::rlimit(100)]
proof fn lemma_pointed(b: Seq<u8>, pos: int, name: Seq<u8>, num: u32) -> (j: int)
    requires
        0 <= pos,
        num != 0,
        dir_write::found_at(b, pos, Query::Named(name)) is Some,
        dir::block_entries(b, pos) is Ok,
        dirs::names_fit(b, pos),
    ensures
        ({
            let q = dir_write::found_at(b, pos, Query::Named(name))->Some_0;
            let c = bytes::put(b, q, bytes::le32_bytes(num));
            let v = dir::block_entries(b, pos)->Ok_0;
            &&& pos <= q
            &&& q + 8 <= b.len()
            &&& 0 <= j < v.len()
            &&& v[j].name == text::text_of(name)
            &&& dir::block_entries(c, pos) == Ok::<Seq<EntryView>, DirError>(
                v.update(j, pointed(v[j], num)),
            )
        }),
    decreases b.len() + 0x1_0000 - pos,
{
    broadcast use bytes::lemma_le32_len;

    let q = dir_write::found_at(b, pos, Query::Named(name))->Some_0;
    let c = bytes::put(b, q, bytes::le32_bytes(num));
    let v = dir::block_entries(b, pos)->Ok_0;
    let len = dir::entry_len(b, pos);
    let rest = dir::block_entries(b, pos + len)->Ok_0;
    if dir_write::is_named(b, pos, name) {
        bytes::law_codec_round_trip(b, pos, 0, num);
        assert(dir::entry_inode(c, pos) == num);
        assert(dir::entry_len(c, pos) == len) by {
            reveal(bytes::le16);
        }
        dirs::lemma_entries_same(b, c, pos + len);
        assert(c.subrange(pos + 8, pos + 8 + name.len()) =~= b.subrange(
            pos + 8,
            pos + 8 + name.len(),
        ));
        assert(dir::entry_at(c, pos) == pointed(dir::entry_at(b, pos), num));
        assert(seq![dir::entry_at(c, pos)] + rest =~= v.update(0, pointed(v[0], num)));
        0
    } else {
        let k = lemma_pointed(b, pos + len, name, num);
        dirs::lemma_entry_same(b, c, pos);
        dirs::lemma_entry_at_same(b, c, pos);
        if dir::entry_inode(b, pos) == 0 {
            k
        } else {
            assert(v[k + 1] == rest[k]);
            assert(seq![dir::entry_at(b, pos)] + rest.update(k, pointed(rest[k], num)) =~= v.update(
                k + 1,
                pointed(v[k + 1], num),
            ));
            k + 1
        }
    }
}

/// A list in which an entry of one block changed.
proof fn lemma_updated_from(
    a: Seq<u8>,
    b: Seq<u8>,
    sb: Superblock,
    i: InodeView,
    l: int,
    n: int,
    m: int,
    j: int,
    x: EntryView,
) -> (k: int)
    requires
        0 <= l <= m < n,
        dirs::same_places(a, b, sb, i, n),
        dirs::own_places(a, sb, i, n),
        dirs::lies(a, sb, i, m),
        ({
            let p = dirs::place(a, sb, i, m)->Ok_0->Some_0;
            let c = block_device::block_at(a, sb.block_size, p);
            let d = block_device::block_at(b, sb.block_size, p);
            let v = dir::block_entries(c->Ok_0, 0)->Ok_0;
            &&& d is Ok
            &&& dir::block_entries(d->Ok_0, 0) == Ok::<Seq<EntryView>, DirError>(v.update(j, x))
            &&& 0 <= j < v.len()
            &&& forall|y: int|
                0 <= y < n && y != m && #[trigger] dirs::lies(a, sb, i, y)
                    ==> block_device::block_at(
                    b,
                    sb.block_size,
                    dirs::place(a, sb, i, y)->Ok_0->Some_0,
                ) == block_device::block_at(
                    a,
                    sb.block_size,
                    dirs::place(a, sb, i, y)->Ok_0->Some_0,
                )
        }),
        dir::entries_from(a, sb, i, l, n) is Ok,
    ensures
        ({
            let p = dirs::place(a, sb, i, m)->Ok_0->Some_0;
            let v = dir::block_entries(block_device::block_at(a, sb.block_size, p)->Ok_0, 0)->Ok_0;
            let e = dir::entries_from(a, sb, i, l, n)->Ok_0;
            &&& 0 <= k < e.len()
            &&& e[k] == v[j]
            &&& dir::entries_from(b, sb, i, l, n) == Ok::<Seq<EntryView>, DirError>(e.update(k, x))
        }),
    decreases n - l,
{
    let e = dir::entries_from(a, sb, i, l, n)->Ok_0;
    assert(dirs::place(a, sb, i, l) == dirs::place(b, sb, i, l));
    let r = dir::entries_from(a, sb, i, l + 1, n);
    if l == m {
        let p = dirs::place(a, sb, i, m)->Ok_0->Some_0;
        let v = dir::block_entries(block_device::block_at(a, sb.block_size, p)->Ok_0, 0)->Ok_0;
        assert forall|y: int|
            l + 1 <= y < n && (#[trigger] dirs::place(a, sb, i, y)) is Ok && dirs::place(
                a,
                sb,
                i,
                y,
            )->Ok_0 is Some implies block_device::block_at(
            a,
            sb.block_size,
            dirs::place(a, sb, i, y)->Ok_0->Some_0,
        ) == block_device::block_at(
            b,
            sb.block_size,
            dirs::place(a, sb, i, y)->Ok_0->Some_0,
        ) by {
            assert(dirs::lies(a, sb, i, y));
        }
        dirs::lemma_same_entries(a, b, sb, i, l + 1, n);
        assert(v.update(j, x) + r->Ok_0 =~= e.update(j, x));
        j
    } else {
        let k = lemma_updated_from(a, b, sb, i, l + 1, n, m, j, x);
        if dirs::lies(a, sb, i, l) {
            let p = dirs::place(a, sb, i, l)->Ok_0->Some_0;
            let v = dir::block_entries(
                block_device::block_at(a, sb.block_size, p)->Ok_0,
                0,
            )->Ok_0;
            assert(v + r->Ok_0.update(k, x) =~= e.update(v.len() + k, x));
            assert(e[v.len() + k] == r->Ok_0[k]);
            v.len() + k
        } else {
            k
        }
    }
}

/// The same is found where the blocks are the same.
proof fn lemma_same_found(
    a: Seq<u8>,
    b: Seq<u8>,
    sb: Superblock,
    i: InodeView,
    q: Query,
    l: int,
    n: int,
)
    requires
        0 <= l,
        dirs::same_places(a, b, sb, i, n),
        forall|y: int|
            0 <= y < n && #[trigger] dirs::lies(a, sb, i, y) ==> block_device::block_at(
                b,
                sb.block_size,
                dirs::place(a, sb, i, y)->Ok_0->Some_0,
            ) == block_device::block_at(
                a,
                sb.block_size,
                dirs::place(a, sb, i, y)->Ok_0->Some_0,
            ),
    ensures
        dir_write::found_from(a, sb, i, q, l, n) == dir_write::found_from(b, sb, i, q, l, n),
    decreases n - l,
{
    if l < n {
        assert(dirs::place(a, sb, i, l) == dirs::place(b, sb, i, l));
        if dirs::lies(a, sb, i, l) {
            let p = dirs::place(a, sb, i, l)->Ok_0->Some_0;
            assert(block_device::block_at(b, sb.block_size, p) == block_device::block_at(
                a,
                sb.block_size,
                p,
            ));
        }
        lemma_same_found(a, b, sb, i, q, l + 1, n);
    }
}

/// The block in which a directory was pointed at another parent. Gives its number
/// in the directory.
proof fn lemma_reparented_where(
    st: FsState,
    sb: Superblock,
    i: InodeView,
    parent: u32,
    l: int,
    n: int,
) -> (m: int)
    requires
        0 <= l,
        dir_write::reparented_from(st, sb, i, parent, l, n).1 is Ok,
        dir_write::found_from(st.disk, sb, i, Query::Named(up()), l, n) is Ok,
        dir_write::found_from(st.disk, sb, i, Query::Named(up()), l, n)->Ok_0 is Some,
    ensures
        l <= m < n,
        dirs::lies(st.disk, sb, i, m),
        ({
            let p = dirs::place(st.disk, sb, i, m)->Ok_0->Some_0;
            let b = block_device::block_at(st.disk, sb.block_size, p);
            let q = dir_write::found_at(b->Ok_0, 0, Query::Named(up()));
            &&& b is Ok
            &&& q is Some
            &&& dir_write::reparented_from(st, sb, i, parent, l, n).0 == fs_state::pin(
                st,
                p,
                bytes::put(b->Ok_0, q->Some_0, bytes::le32_bytes(parent)),
            )
        }),
    decreases n - l,
{
    match dirs::place(st.disk, sb, i, l) {
        Err(_) => l,
        Ok(None) => lemma_reparented_where(st, sb, i, parent, l + 1, n),
        Ok(Some(p)) => {
            let b = block_device::block_at(st.disk, sb.block_size, p)->Ok_0;
            if dir_write::found_at(b, 0, Query::Named(up())) is Some {
                assert(dirs::lies(st.disk, sb, i, l));
                l
            } else {
                lemma_reparented_where(st, sb, i, parent, l + 1, n)
            }
        },
    }
}

/// A list in which the only entry of a name was pointed at another inode.
proof fn lemma_list_pointed(e: Seq<EntryView>, k: int, num: u32)
    requires
        0 <= k < e.len(),
        names::listed_once(e, e[k].name),
    ensures
        dir::first_named(e.update(k, pointed(e[k], num)), e[k].name) == Some(num),
        forall|other: Seq<char>|
            other != e[k].name ==> #[trigger] dir::first_named(
                e.update(k, pointed(e[k], num)),
                other,
            ) == dir::first_named(e, other),
{
    let f = e.update(k, pointed(e[k], num));
    assert forall|a: int, b: int|
        0 <= a < b < f.len() && (#[trigger] f[a]).name == e[k].name implies (#[trigger] f[b]).name
        != e[k].name by {
        assert(e[a].name == e[k].name ==> e[b].name != e[k].name);
    }
    renames::lemma_only_one_is_found(f, e[k].name, k);
    assert forall|other: Seq<char>| other != e[k].name implies #[trigger] dir::first_named(f, other)
        == dir::first_named(e, other) by {
        lemma_others_pointed(e, k, num, other);
    }
}

proof fn lemma_others_pointed(e: Seq<EntryView>, k: int, num: u32, other: Seq<char>)
    requires
        0 <= k < e.len(),
        other != e[k].name,
    ensures
        dir::first_named(e.update(k, pointed(e[k], num)), other) == dir::first_named(e, other),
    decreases e.len(),
{
    let f = e.update(k, pointed(e[k], num));
    if k == 0 {
        assert(f.skip(1) =~= e.skip(1));
    } else if e[0].name != other {
        assert(e.skip(1)[k - 1] == e[k]);
        lemma_others_pointed(e.skip(1), k - 1, num, other);
        assert(f.skip(1) =~= e.skip(1).update(k - 1, pointed(e[k], num)));
    }
}

/// Whether directory `num` has nothing in common with the two directories that it is
/// moved between, and has one entry that leads to its parent.
pub open spec fn movable(
    v: VolState,
    sb: Superblock,
    num: u32,
    dn: nat,
    src: u32,
    ds: nat,
    dst: u32,
    dd: nat,
) -> bool {
    let st = requests::at_rest(v);
    let i = volume::inode_now(st, sb, num);
    let e = dir::dir_entries(v.disk, sb, i);
    let q = dir_write::found(v.disk, sb, v.gdt, num, Query::Named(up()));
    &&& volume::sound_file(st, sb, num, dn)
    &&& append::clear_of(st, sb, num, dn, v.w.blocks)
    &&& renames::strangers(st, sb, num, dn, src, ds)
    &&& renames::strangers(st, sb, num, dn, dst, dd)
    &&& e is Ok
    &&& names::listed_once(e->Ok_0, ".."@)
    &&& dirs::all_fit(v.disk, sb, i, dir::dir_blocks(sb, i))
    &&& q is Ok
    &&& q->Ok_0 is Some
}

/// After the new name made way, a directory that is unrelated to both directories of
/// a move is sound still.
#[verifier::rlimit(100)]
proof fn lemma_bystander_view(
    v: VolState,
    sb: Superblock,
    num: u32,
    dn: nat,
    src: u32,
    ds: nat,
    from: Seq<char>,
    dst: u32,
    dd: nat,
    to: Seq<char>,
)
    requires
        renames::can_move(v, sb, src, ds, from, dst, dd, to, v.w.blocks),
        movable(v, sb, num, dn, src, ds, dst, dd),
        dir_write::displaced(requests::at_rest(v), sb, v.gdt, dst, to).1 is Ok,
    ensures
        ({
            let st = requests::at_rest(v);
            let s = clears::cleared(v, sb, dst, to);
            &&& s.disk == v.disk
            &&& s.gdt == v.gdt
            &&& pins::whole(s, sb)
            &&& volume::sound_file(s, sb, num, dn)
            &&& names::may_grow(s, sb, dst, dd)
            &&& append::clear_of(s, sb, num, dn, v.w.blocks)
            &&& renames::strangers(s, sb, num, dn, dst, dd)
            &&& forall|b: u64| #[trigger]
                append::foreign(s, sb, dst, dd, b) == append::foreign(st, sb, dst, dd, b)
            &&& forall|b: u64|
                append::foreign(s, sb, dst, dd, b) ==> #[trigger] volume::agrees(
                    s,
                    sb.block_size,
                    b,
                )
        }),
{
    let st = requests::at_rest(v);
    let log = v.w.blocks;
    let s = clears::cleared(v, sb, dst, to);
    renames::lemma_way_made(v, sb, src, ds, from, dst, dd, to, log);
    clears::lemma_cleared(v, sb, dst, dd, to, log);
    assert forall|b: u64|
        b == volume::table_block(st.gdt, sb, num) || volume::node_block(
            st,
            sb,
            num,
            dn,
            b,
        ) implies #[trigger] volume::agrees(s, sb.block_size, b) by {
        assert(names::held(st, sb, num, dn, b));
        if volume::node_block(st, sb, num, dn, b) {
            assert(volume::kept_apart(st, sb, num, b));
        }
    }
    clears::lemma_same_view(st, s, sb, num, dn);
    assert forall|b: u64| #[trigger] log.contains(b) implies append::bystander(
        s,
        sb,
        num,
        dn,
        b,
    ) by {
        assert(append::bystander(st, sb, num, dn, b));
    }
    assert forall|b: u64| #[trigger]
        names::held(s, sb, num, dn, b) && b != volume::table_block(
            s.gdt,
            sb,
            num,
        ) implies append::foreign(s, sb, dst, dd, b) by {
        assert(names::held(st, sb, num, dn, b));
        assert(append::foreign(st, sb, dst, dd, b));
    }
}

/// A directory that is unrelated to both directories of a move is as it was, on the
/// device and as the transaction sees it.
#[verifier::rlimit(100)]
proof fn lemma_bystander_dir(
    v: VolState,
    sb: Superblock,
    num: u32,
    dn: nat,
    src: u32,
    ds: nat,
    from: Seq<char>,
    dst: u32,
    dd: nat,
    to: Seq<char>,
)
    requires
        v.w.bs == sb.block_size,
        renames::can_move(v, sb, src, ds, from, dst, dd, to, v.w.blocks),
        movable(v, sb, num, dn, src, ds, dst, dd),
        rename::shifted(v, sb, src, from, dst, to).1 is Ok,
    ensures
        ({
            let bs = sb.block_size;
            let st = requests::at_rest(v);
            let s3 = renames::taken_out(v, sb, src, from, dst, to);
            let t = volume::table_block(st.gdt, sb, num);
            let o = inode::slot_offset(sb, num);
            let x = fs_state::fetched(s3.disk, s3.txn.blocks, bs, t);
            &&& s3.disk.len() == v.disk.len()
            &&& x is Ok
            &&& inode::live_inode(x->Ok_0.subrange(o, o + 128), num) == inode::inode_at(
                v.disk,
                sb,
                v.gdt,
                num,
            )
            &&& inode::inode_at(s3.disk, sb, v.gdt, num) == inode::inode_at(
                v.disk,
                sb,
                v.gdt,
                num,
            )
            &&& forall|b: u64| #[trigger]
                names::held(st, sb, num, dn, b) && b != t ==> fs_state::fetched(
                    s3.disk,
                    s3.txn.blocks,
                    bs,
                    b,
                ) == block_device::block_at(v.disk, bs, b) && block_device::block_at(
                    s3.disk,
                    bs,
                    b,
                ) == block_device::block_at(v.disk, bs, b)
        }),
{
    let bs = sb.block_size;
    let st = requests::at_rest(v);
    let log = v.w.blocks;
    let t = volume::table_block(st.gdt, sb, num);
    let td = volume::table_block(st.gdt, sb, dst);
    let o = inode::slot_offset(sb, num);
    let s2 = renames::between(v, sb, src, from, dst, to);
    let s3 = renames::taken_out(v, sb, src, from, dst, to);
    renames::lemma_two_steps(v, sb, src, ds, from, dst, dd, to, log);
    renames::lemma_out(v, sb, src, ds, from, dst, dd, to, log);
    let (z, file_type) = dir_write::found(
        v.disk,
        sb,
        v.gdt,
        src,
        Query::Named(dir_write::name_bytes(from)),
    )->Ok_0->Some_0;
    let new_name = dir_write::name_bytes(to);
    let s1 = clears::cleared(v, sb, dst, to);
    lemma_bystander_view(v, sb, num, dn, src, ds, from, dst, dd, to);
    dirs::lemma_entered_frame(s1, sb, dst, dd, new_name, z, file_type);
    pins::lemma_entered(s1, sb, dst, new_name, z, file_type);
    renames::lemma_other_dir(s1, s2, sb, num, dn, dst, dd, log);
    volume::lemma_slot_read(s1, sb, num);
    volume::lemma_slot_read(s1, sb, dst);
    assert(fs_state::fetched(s3.disk, s3.txn.blocks, bs, t) == fs_state::fetched(
        s2.disk,
        s2.txn.blocks,
        bs,
        t,
    )) by {
        if t != volume::table_block(st.gdt, sb, src) {
            assert(append::foreign(st, sb, src, ds, t));
        }
    }
    volume::lemma_readable(s2.disk, s1.disk, bs, t);
    volume::lemma_record_in_block(s2.disk, sb, s1.gdt, num);
    if t == td {
        names::lemma_record_beside(
            block_device::block_at(s2.disk, bs, t)->Ok_0,
            block_device::block_at(s1.disk, bs, t)->Ok_0,
            sb,
            dst,
            num,
        );
    } else {
        assert(append::foreign(s1, sb, dst, dd, t));
        assert(volume::untouched(s1, s2, bs, t));
    }
    assert forall|b: u64| #[trigger] names::held(st, sb, num, dn, b) && b != t implies
        fs_state::fetched(s3.disk, s3.txn.blocks, bs, b) == block_device::block_at(v.disk, bs, b)
        && block_device::block_at(s3.disk, bs, b) == block_device::block_at(v.disk, bs, b) by {
        assert(append::foreign(st, sb, src, ds, b));
        assert(append::foreign(st, sb, dst, dd, b));
        assert(append::foreign(s1, sb, dst, dd, b));
        assert(volume::untouched(s1, s2, bs, b));
        assert(volume::agrees(s1, bs, b));
        reveal(volume::agrees);
    }
}

/// The block of a moved directory in which it was pointed at its new parent. Gives
/// its number in the directory.
#[verifier::rlimit(100)]
proof fn lemma_turned(
    v: VolState,
    sb: Superblock,
    num: u32,
    dn: nat,
    src: u32,
    ds: nat,
    from: Seq<char>,
    dst: u32,
    dd: nat,
    to: Seq<char>,
) -> (m: int)
    requires
        v.w.bs == sb.block_size,
        renames::can_move(v, sb, src, ds, from, dst, dd, to, v.w.blocks),
        movable(v, sb, num, dn, src, ds, dst, dd),
        rename::shifted(v, sb, src, from, dst, to).1 is Ok,
        dir_write::reparented(
            renames::taken_out(v, sb, src, from, dst, to),
            sb,
            v.gdt,
            num,
            dst,
        ).1 is Ok,
    ensures
        ({
            let st = requests::at_rest(v);
            let i = volume::inode_now(st, sb, num);
            let s3 = renames::taken_out(v, sb, src, from, dst, to);
            let p = dirs::place(v.disk, sb, i, m)->Ok_0->Some_0;
            let b = block_device::block_at(v.disk, sb.block_size, p);
            let q = dir_write::found_at(b->Ok_0, 0, Query::Named(up()));
            &&& 0 <= m < dir::dir_blocks(sb, i)
            &&& dirs::lies(v.disk, sb, i, m)
            &&& b is Ok
            &&& b->Ok_0.len() == sb.block_size
            &&& q is Some
            &&& extent::mapped(volume::extents_now(st, sb, num), m as u64) == Some(p)
            &&& dir_write::reparented(s3, sb, v.gdt, num, dst).0 == fs_state::pin(
                s3,
                p,
                bytes::put(b->Ok_0, q->Some_0, bytes::le32_bytes(dst)),
            )
        }),
{
    let bs = sb.block_size;
    let st = requests::at_rest(v);
    let log = v.w.blocks;
    let i = volume::inode_now(st, sb, num);
    let n = dir::dir_blocks(sb, i);
    let e = volume::extents_now(st, sb, num);
    let s3 = renames::taken_out(v, sb, src, from, dst, to);
    lemma_bystander_dir(v, sb, num, dn, src, ds, from, dst, dd, to);
    volume::lemma_extents(st, sb, num, dn);
    dirs::lemma_sound_dir(st, sb, num, dn, log);
    dirs::lemma_dir_blocks(sb, i);
    assert forall|b: u64| #[trigger] tree::within(st.disk, bs, i.block_data, dn, b) implies
        block_device::block_at(s3.disk, bs, b) == block_device::block_at(st.disk, bs, b) by {
        assert(volume::node_block(st, sb, num, dn, b));
        assert(names::held(st, sb, num, dn, b));
        assert(volume::kept_apart(st, sb, num, b));
    }
    dirs::lemma_places(st, sb, i, dn, log, s3.disk, n);
    assert forall|y: int| 0 <= y < n && #[trigger] dirs::lies(s3.disk, sb, i, y) implies ({
        let p = dirs::place(s3.disk, sb, i, y)->Ok_0->Some_0;
        &&& block_device::block_at(st.disk, bs, p) == block_device::block_at(s3.disk, bs, p)
        &&& extent::mapped(e, y as u64) == Some(p)
    }) by {
        let p = dirs::place(s3.disk, sb, i, y)->Ok_0->Some_0;
        assert(dirs::place(s3.disk, sb, i, y) == dirs::place(st.disk, sb, i, y));
        data::lemma_found(st, sb, num, dn, y as u64);
        assert(extent::mapped(e, y as u64) == Some(p));
        assert(names::held(st, sb, num, dn, p));
        assert(volume::kept_apart(st, sb, num, p));
    }
    assert forall|y: int| 0 <= y < n implies #[trigger] dirs::place(s3.disk, sb, i, y)
        == dirs::place(st.disk, sb, i, y) by {}
    lemma_same_found(s3.disk, st.disk, sb, i, Query::Named(up()), 0, n);
    let m = lemma_reparented_where(s3, sb, i, dst, 0, n);
    assert(dirs::place(s3.disk, sb, i, m) == dirs::place(st.disk, sb, i, m));
    block_device::lemma_block_at(
        st.disk,
        bs,
        dirs::place(st.disk, sb, i, m)->Ok_0->Some_0,
    );
    m
}

/// A block of the moved directory that was pinned too does not matter to the two
/// directories that it moves between.
proof fn lemma_wider_log(
    v: VolState,
    s: FsState,
    sb: Superblock,
    num: u32,
    dn: nat,
    src: u32,
    ds: nat,
    from: Seq<char>,
    dst: u32,
    dd: nat,
    to: Seq<char>,
    p: u64,
    x: Seq<u8>,
    disk: Seq<u8>,
)
    requires
        renames::can_move(v, sb, src, ds, from, dst, dd, to, v.w.blocks),
        movable(v, sb, num, dn, src, ds, dst, dd),
        names::held(requests::at_rest(v), sb, num, dn, p),
        p != volume::table_block(v.gdt, sb, num),
        volume::sees(fs_state::pin(s, p, x), sb.block_size, v.w.blocks, disk),
    ensures
        renames::can_move(v, sb, src, ds, from, dst, dd, to, v.w.blocks.push(p)),
        volume::sees(s, sb.block_size, v.w.blocks.push(p), disk),
{
    let bs = sb.block_size;
    let st = requests::at_rest(v);
    let log = v.w.blocks;
    let more = log.push(p);
    assert(append::foreign(st, sb, src, ds, p));
    assert(append::foreign(st, sb, dst, dd, p));
    assert(more[log.len() as int] == p);
    assert forall|b: u64| #[trigger] more.contains(b) == (log.contains(b) || b == p) by {
        if log.contains(b) {
            let y = choose|y: int| 0 <= y < log.len() && log[y] == b;
            assert(more[y] == b);
        }
        if more.contains(b) && b != p {
            let y = choose|y: int| 0 <= y < more.len() && more[y] == b;
            assert(log[y] == b);
        }
    }
    assert forall|c: u64| #![trigger block_device::block_at(disk, bs, c)]
        !more.contains(c) implies block_device::block_at(disk, bs, c) == fs_state::fetched(
        s.disk,
        s.txn.blocks,
        bs,
        c,
    ) by {
        writer::lemma_pin(s.txn.blocks, p, x, c);
    }
}

/// What a moved directory lists once all is in place.
#[verifier::rlimit(100)]
proof fn lemma_moved_lists(
    v: VolState,
    sb: Superblock,
    num: u32,
    dn: nat,
    src: u32,
    ds: nat,
    from: Seq<char>,
    dst: u32,
    dd: nat,
    to: Seq<char>,
    m: int,
    disk: Seq<u8>,
)
    requires
        v.w.bs == sb.block_size,
        renames::can_move(v, sb, src, ds, from, dst, dd, to, v.w.blocks),
        movable(v, sb, num, dn, src, ds, dst, dd),
        rename::shifted(v, sb, src, from, dst, to).1 is Ok,
        ({
            let st = requests::at_rest(v);
            let i = volume::inode_now(st, sb, num);
            let s3 = renames::taken_out(v, sb, src, from, dst, to);
            let p = dirs::place(v.disk, sb, i, m)->Ok_0->Some_0;
            let b = block_device::block_at(v.disk, sb.block_size, p);
            let q = dir_write::found_at(b->Ok_0, 0, Query::Named(up()));
            &&& 0 <= m < dir::dir_blocks(sb, i)
            &&& dirs::lies(v.disk, sb, i, m)
            &&& b is Ok
            &&& b->Ok_0.len() == sb.block_size
            &&& q is Some
            &&& extent::mapped(volume::extents_now(st, sb, num), m as u64) == Some(p)
            &&& volume::sees(
                fs_state::pin(
                    s3,
                    p,
                    bytes::put(b->Ok_0, q->Some_0, bytes::le32_bytes(dst)),
                ),
                sb.block_size,
                v.w.blocks,
                disk,
            )
        }),
    ensures
        ({
            let i = volume::inode_now(requests::at_rest(v), sb, num);
            let g = dir::dir_entries(v.disk, sb, i)->Ok_0;
            let g2 = dir::dir_entries(disk, sb, i);
            &&& inode::inode_at(disk, sb, v.gdt, num) == inode::inode_at(v.disk, sb, v.gdt, num)
            &&& forall|c: u64| #[trigger]
                volume::node_block(requests::at_rest(v), sb, num, dn, c)
                    ==> block_device::block_at(disk, sb.block_size, c) == block_device::block_at(
                    v.disk,
                    sb.block_size,
                    c,
                )
            &&& g2 is Ok
            &&& dir::first_named(g2->Ok_0, ".."@) == Some(dst)
            &&& forall|other: Seq<char>|
                other != ".."@ ==> #[trigger] dir::first_named(g2->Ok_0, other)
                    == dir::first_named(g, other)
        }),
{
    let bs = sb.block_size;
    let st = requests::at_rest(v);
    let log = v.w.blocks;
    let i = volume::inode_now(st, sb, num);
    let n = dir::dir_blocks(sb, i);
    let e = volume::extents_now(st, sb, num);
    let t = volume::table_block(st.gdt, sb, num);
    let s3 = renames::taken_out(v, sb, src, from, dst, to);
    let p = dirs::place(v.disk, sb, i, m)->Ok_0->Some_0;
    let b = block_device::block_at(v.disk, bs, p)->Ok_0;
    let q = dir_write::found_at(b, 0, Query::Named(up()))->Some_0;
    let x = bytes::put(b, q, bytes::le32_bytes(dst));
    lemma_bystander_dir(v, sb, num, dn, src, ds, from, dst, dd, to);
    volume::lemma_slot_read(st, sb, num);
    volume::lemma_slot_read(st, sb, dst);
    volume::lemma_extents(st, sb, num, dn);
    dirs::lemma_sound_dir(st, sb, num, dn, log);
    dirs::lemma_dir_blocks(sb, i);
    assert(volume::kept_apart(st, sb, num, p));
    writer::lemma_pin(s3.txn.blocks, p, x, p);
    writer::lemma_pin(s3.txn.blocks, p, x, t);
    if log.contains(t) {
        assert(append::bystander(st, sb, num, dn, t));
    }
    if log.contains(p) {
        assert(append::unmapped(e, p));
    }
    volume::lemma_record_in_block(disk, sb, v.gdt, num);
    assert forall|c: u64| #[trigger] tree::within(st.disk, bs, i.block_data, dn, c) implies
        block_device::block_at(disk, bs, c) == block_device::block_at(st.disk, bs, c) by {
        assert(volume::node_block(st, sb, num, dn, c));
        assert(names::held(st, sb, num, dn, c));
        assert(volume::kept_apart(st, sb, num, c));
        assert(!volume::node_block(st, sb, num, dn, p));
        if log.contains(c) {
            assert(append::bystander(st, sb, num, dn, c));
        }
        writer::lemma_pin(s3.txn.blocks, p, x, c);
    }
    dirs::lemma_places(st, sb, i, dn, log, disk, n);
    dirs::lemma_places(st, sb, i, dn, log, st.disk, n);
    assert forall|y: int| 0 <= y < n && y != m && #[trigger] dirs::lies(st.disk, sb, i, y) implies
        block_device::block_at(disk, bs, dirs::place(st.disk, sb, i, y)->Ok_0->Some_0)
        == block_device::block_at(
        st.disk,
        bs,
        dirs::place(st.disk, sb, i, y)->Ok_0->Some_0,
    ) by {
        let c = dirs::place(st.disk, sb, i, y)->Ok_0->Some_0;
        data::lemma_found(st, sb, num, dn, y as u64);
        assert(extent::mapped(e, y as u64) == Some(c));
        assert(extent::mapped(e, y as u64) != extent::mapped(e, m as u64));
        assert(names::held(st, sb, num, dn, c));
        assert(volume::kept_apart(st, sb, num, c));
        if log.contains(c) {
            assert(append::unmapped(e, c));
        }
        writer::lemma_pin(s3.txn.blocks, p, x, c);
    }
    assert(dirs::all_fit(v.disk, sb, i, n));
    assert(dst != 0);
    lemma_entries_lie(v.disk, sb, i, 0, n, m);
    let j = lemma_pointed(b, 0, up(), dst);
    let w = dir::block_entries(b, 0)->Ok_0;
    assert(block_device::block_at(disk, bs, p) == Ok::<Seq<u8>, block_device::BlockDeviceError>(
        x,
    ));
    assert(dirs::same_places(st.disk, disk, sb, i, n));
    let k = lemma_updated_from(st.disk, disk, sb, i, 0, n, m, j, pointed(w[j], dst));
    let g = dir::dir_entries(v.disk, sb, i)->Ok_0;
    lemma_up_text();
    lemma_list_pointed(g, k, dst);
}

/// What a moved directory lists is the same where the devices differ in blocks that a
/// rename may change beside those of its entries.
proof fn lemma_num_carried(
    v: VolState,
    sb: Superblock,
    num: u32,
    dn: nat,
    src: u32,
    from: Seq<char>,
    dst: u32,
    to: Seq<char>,
    a: Seq<u8>,
    b: Seq<u8>,
)
    requires
        volume::sound_file(requests::at_rest(v), sb, num, dn),
        append::clear_of(requests::at_rest(v), sb, num, dn, v.w.blocks),
        shares::spares(v, sb, src, from, dst, to, num, dn),
        a.len() == v.disk.len(),
        b.len() == v.disk.len(),
        forall|c: u64| #[trigger]
            volume::node_block(requests::at_rest(v), sb, num, dn, c) ==> block_device::block_at(
                a,
                sb.block_size,
                c,
            ) == block_device::block_at(v.disk, sb.block_size, c),
        forall|c: u64| #![trigger block_device::block_at(b, sb.block_size, c)]
            !shares::strays(v, sb, src, from, dst, to, c) ==> block_device::block_at(b, sb.block_size, c)
                == block_device::block_at(a, sb.block_size, c),
    ensures
        ({
            let i = volume::inode_now(requests::at_rest(v), sb, num);
            dir::dir_entries(b, sb, i) == dir::dir_entries(a, sb, i)
        }),
{
    let bs = sb.block_size;
    let st = requests::at_rest(v);
    let i = volume::inode_now(st, sb, num);
    let e = volume::extents_now(st, sb, num);
    let t = volume::table_block(st.gdt, sb, num);
    volume::lemma_extents(st, sb, num, dn);
    dirs::lemma_sound_dir(st, sb, num, dn, v.w.blocks);
    assert forall|c: u64| #[trigger]
        shares::strays(v, sb, src, from, dst, to, c) implies !tree::within(
        st.disk,
        bs,
        i.block_data,
        dn,
        c,
    ) && append::unmapped(e, c) by {
        shares::lemma_strays(v, sb, src, from, dst, to, num, dn, c);
        if volume::node_block(st, sb, num, dn, c) {
            assert(volume::kept_apart(st, sb, num, c));
        }
        assert forall|y: u64| (#[trigger] extent::mapped(e, y)) != Some(c) by {
            if extent::mapped(e, y) == Some(c) {
                assert(volume::kept_apart(st, sb, num, c));
            }
        }
    }
    assert forall|c: u64| #[trigger]
        tree::within(st.disk, bs, i.block_data, dn, c) implies block_device::block_at(a, bs, c)
        == block_device::block_at(st.disk, bs, c) && block_device::block_at(b, bs, c)
        == block_device::block_at(st.disk, bs, c) by {
        assert(volume::node_block(st, sb, num, dn, c));
        assert(!shares::strays(v, sb, src, from, dst, to, c));
        assert(block_device::block_at(b, bs, c) == block_device::block_at(a, bs, c));
    }
    assert forall|y: u64| (#[trigger] extent::mapped(e, y)) is Some implies block_device::block_at(
        b,
        bs,
        extent::mapped(e, y)->Some_0,
    ) == block_device::block_at(a, bs, extent::mapped(e, y)->Some_0) by {
        let c = extent::mapped(e, y)->Some_0;
        if shares::strays(v, sb, src, from, dst, to, c) {
            assert(append::unmapped(e, c));
        }
    }
    shares::lemma_kept_list(st, sb, i, dn, v.w.blocks, b, a);
}

/// The blocks of a directory that can be listed can be listed.
proof fn lemma_entries_lie(disk: Seq<u8>, sb: Superblock, i: InodeView, l: int, n: int, m: int)
    requires
        0 <= l <= m < n,
        dir::entries_from(disk, sb, i, l, n) is Ok,
        dirs::lies(disk, sb, i, m),
    ensures
        ({
            let b = block_device::block_at(
                disk,
                sb.block_size,
                dirs::place(disk, sb, i, m)->Ok_0->Some_0,
            );
            &&& b is Ok
            &&& dir::block_entries(b->Ok_0, 0) is Ok
        }),
    decreases m - l,
{
    if l < m {
        lemma_entries_lie(disk, sb, i, l + 1, n, m);
    }
}

/// The text of the name that leads to a directory's parent.
proof fn lemma_up_text()
    ensures
        text::text_of(up()) == ".."@,
{
    mkdir::lemma_dots();
    text::law_encoded_is_read(".."@);
    assert(dir_write::name_bytes(".."@) =~= up());
}

/// A directory that was moved to another one is found there under its new name, as
/// the inode that it was found as before; the old name is not found any more where
/// it was, and every other name is found as before in both. It leads to its new
/// parent, and lists all else as before.
///
/// What had the new name is replaced.
#[verifier::rlimit(100)]
pub proof fn law_dir_moved_is_found(
    v: VolState,
    sb: Superblock,
    file_name: Seq<char>,
    new_file_name: Seq<char>,
    replace: bool,
    seconds: Option<u64>,
    src_path: Seq<char>,
    src: u32,
    ds: nat,
    from: Seq<char>,
    dst_path: Seq<char>,
    dst: u32,
    dd: nat,
    to: Seq<char>,
    num: u32,
    dn: nat,
)
    requires
        create::parted(fsp_impl::volume_path(file_name)) == Some((src_path, from)),
        create::parted(fsp_impl::volume_path(new_file_name)) == Some((dst_path, to)),
        fs_context::resolved(v.disk, sb, v.gdt, src_path) is Ok,
        fs_context::resolved(v.disk, sb, v.gdt, src_path)->Ok_0 == src,
        fs_context::resolved(v.disk, sb, v.gdt, dst_path) is Ok,
        fs_context::resolved(v.disk, sb, v.gdt, dst_path)->Ok_0 == dst,
        renames::can_move(v, sb, src, ds, from, dst, dd, to, v.w.blocks),
        v.w.bs == sb.block_size,
        names::listed_once(
            dir::dir_entries(
                v.disk,
                sb,
                volume::inode_now(requests::at_rest(v), sb, src),
            )->Ok_0,
            from,
        ),
        renames::moves_dir(v, sb, src, from),
        dir_write::found(
            v.disk,
            sb,
            v.gdt,
            src,
            Query::Named(dir_write::name_bytes(from)),
        )->Ok_0->Some_0.0 == num,
        movable(v, sb, num, dn, src, ds, dst, dd),
        shares::spares(v, sb, src, from, dst, to, src, ds),
        shares::spares(v, sb, src, from, dst, to, dst, dd),
        shares::spares(v, sb, src, from, dst, to, num, dn),
        rename::renamed(v, sb, false, file_name, new_file_name, replace, seconds).1 is Ok,
    ensures
        ({
            let st = requests::at_rest(v);
            let e = dir::dir_entries(v.disk, sb, volume::inode_now(st, sb, src))->Ok_0;
            let f = dir::dir_entries(v.disk, sb, volume::inode_now(st, sb, dst))->Ok_0;
            let g = dir::dir_entries(v.disk, sb, volume::inode_now(st, sb, num))->Ok_0;
            let v2 = rename::renamed(v, sb, false, file_name, new_file_name, replace, seconds).0;
            let p = inode::inode_at(v2.disk, sb, v2.gdt, src);
            let q = inode::inode_at(v2.disk, sb, v2.gdt, dst);
            let i = inode::inode_at(v2.disk, sb, v2.gdt, num);
            let e2 = dir::dir_entries(v2.disk, sb, p->Ok_0);
            let f2 = dir::dir_entries(v2.disk, sb, q->Ok_0);
            let g2 = dir::dir_entries(v2.disk, sb, i->Ok_0);
            &&& p is Ok
            &&& q is Ok
            &&& i == inode::inode_at(v.disk, sb, v.gdt, num)
            &&& e2 is Ok
            &&& f2 is Ok
            &&& g2 is Ok
            &&& dir::first_named(e, from) == Some(num)
            &&& dir::first_named(f2->Ok_0, to) == Some(num)
            &&& dir::first_named(e2->Ok_0, from) is None
            &&& forall|other: Seq<char>|
                other != from ==> #[trigger] dir::first_named(e2->Ok_0, other)
                    == dir::first_named(e, other)
            &&& forall|other: Seq<char>|
                other != to ==> #[trigger] dir::first_named(f2->Ok_0, other)
                    == dir::first_named(f, other)
            &&& dir::first_named(g2->Ok_0, ".."@) == Some(dst)
            &&& forall|other: Seq<char>|
                other != ".."@ ==> #[trigger] dir::first_named(g2->Ok_0, other)
                    == dir::first_named(g, other)
        }),
{
    let bs = sb.block_size;
    let st = requests::at_rest(v);
    let log = v.w.blocks;
    let i = volume::inode_now(st, sb, num);
    let s2 = renames::between(v, sb, src, from, dst, to);
    let s3 = renames::taken_out(v, sb, src, from, dst, to);
    let s4 = dir_write::reparented(s3, sb, v.gdt, num, dst).0;
    renames::lemma_two_steps(v, sb, src, ds, from, dst, dd, to, log);
    renames::lemma_out(v, sb, src, ds, from, dst, dd, to, log);
    let m = lemma_turned(v, sb, num, dn, src, ds, from, dst, dd, to);
    let p = dirs::place(v.disk, sb, i, m)->Ok_0->Some_0;
    let b = block_device::block_at(v.disk, bs, p)->Ok_0;
    let q = dir_write::found_at(b, 0, Query::Named(up()))->Some_0;
    let x = bytes::put(b, q, bytes::le32_bytes(dst));
    assert(s4 == fs_state::pin(s3, p, x));
    assert(volume::kept_apart(st, sb, num, p));
    assert(names::held(st, sb, num, dn, p));
    let v2 = rename::moved(v, sb, src, from, dst, to, seconds).0;
    pins::lemma_pinned(s3, sb, p, x);
    let a = shares::lemma_dropped(v, s4, sb, dst, to);
    renames::lemma_still_pinned(s3.txn.blocks, p, x);
    assert forall|y: int| 0 <= y < s2.txn.blocks.len() implies block_device::block_at(
        s2.disk,
        bs,
        (#[trigger] s2.txn.blocks[y]).0,
    ) is Ok by {
        assert(s3.txn.blocks[y].0 == s2.txn.blocks[y].0);
        assert(s4.txn.blocks[y].0 == s3.txn.blocks[y].0);
    }
    lemma_wider_log(v, s3, sb, num, dn, src, ds, from, dst, dd, to, p, x, a);
    renames::lemma_lists_after(v, sb, src, ds, from, dst, dd, to, log.push(p), a);
    volume::lemma_slot_read(st, sb, src);
    volume::lemma_slot_read(st, sb, dst);
    assert(volume::same_layout(v.gdt, s4.gdt));
    shares::lemma_finished(v, s4, sb, src, from, dst, to, seconds, src, ds, a);
    shares::lemma_finished(v, s4, sb, src, from, dst, to, seconds, dst, dd, a);
    shares::lemma_finished(v, s4, sb, src, from, dst, to, seconds, num, dn, a);
    assert forall|c: u64| log.contains(c) implies #[trigger] log.push(p).contains(c) by {
        let y = choose|y: int| 0 <= y < log.len() && log[y] == c;
        assert(log.push(p)[y] == c);
    }
    renames::lemma_carried(v, sb, src, ds, from, dst, dd, to, log.push(p), a, v2.disk);
    volume::lemma_slot_read(st, sb, src);
    volume::lemma_slot_read(st, sb, dst);
    volume::lemma_slot_read(st, sb, num);
    renames::lemma_inode_layout(v2.disk, sb, v.gdt, v2.gdt, src);
    renames::lemma_inode_layout(v2.disk, sb, v.gdt, v2.gdt, dst);
    renames::lemma_inode_layout(v2.disk, sb, v.gdt, v2.gdt, num);
    lemma_moved_lists(v, sb, num, dn, src, ds, from, dst, dd, to, m, a);
    lemma_num_carried(v, sb, num, dn, src, from, dst, to, a, v2.disk);
    shares::lemma_inode_kept(v, sb, src, dst, num, dn, a, v2.disk);
}

} // verus!
