//! Making way for a new name that was taken.
use vstd::prelude::*;
use super::append;
use super::data;
use super::dirs;
use super::names;
use super::pins;
use super::renames;
use super::requests;
use super::volume;
use crate::block_device;
use crate::dir;
use crate::dir::EntryView;
use crate::dir_write;
use crate::dir_write::Query;
use crate::extent;
use crate::fs_context::VolState;
use crate::fs_state;
use crate::fs_state::FsState;
use crate::journal::writer;
use crate::superblock::Superblock;
use crate::text;

verus! {

/// The state of a rename after what had the new name made way.
pub open spec fn cleared(v: VolState, sb: Superblock, dst: u32, to: Seq<char>) -> FsState {
    dir_write::displaced(requests::at_rest(v), sb, v.gdt, dst, to).0
}

/// What the directory lists then.
pub open spec fn rest(v: VolState, sb: Superblock, dst: u32, to: Seq<char>) -> Seq<EntryView> {
    dir::dir_entries(
        renames::settled(cleared(v, sb, dst, to), sb),
        sb,
        volume::inode_now(requests::at_rest(v), sb, dst),
    )->Ok_0
}

/// Whether a name is free in a directory, or can make way there: it is listed once.
pub open spec fn may_take(v: VolState, sb: Superblock, dst: u32, to: Seq<char>) -> bool {
    let h = volume::inode_now(requests::at_rest(v), sb, dst);
    let e = dir::dir_entries(v.disk, sb, h)->Ok_0;
    let q = dir_write::found(v.disk, sb, v.gdt, dst, Query::Named(dir_write::name_bytes(to)));
    dir::first_named(e, to) is None || {
        &&& q is Ok
        &&& q->Ok_0 is Some
        &&& names::listed_once(e, to)
        &&& dirs::all_fit(v.disk, sb, h, dir::dir_blocks(sb, h))
    }
}

/// Pinning blocks that are neither of a file's tree nor its record's leaves the file
/// sound.
pub proof fn lemma_same_view(st: FsState, s: FsState, sb: Superblock, num: u32, d: nat)
    requires
        s.disk == st.disk,
        s.gdt == st.gdt,
        volume::sound_file(st, sb, num, d),
        forall|b: u64|
            b == volume::table_block(st.gdt, sb, num) || volume::node_block(st, sb, num, d, b)
                ==> #[trigger] volume::agrees(s, sb.block_size, b),
    ensures
        volume::sound_file(s, sb, num, d),
        forall|b: u64| #[trigger] volume::used(s, sb, b) == volume::used(st, sb, b),
        forall|b: u64| #[trigger]
            append::foreign(s, sb, num, d, b) == append::foreign(st, sb, num, d, b),
        forall|b: u64| #[trigger]
            append::bystander(s, sb, num, d, b) == append::bystander(st, sb, num, d, b),
        forall|b: u64| #[trigger]
            names::held(s, sb, num, d, b) == names::held(st, sb, num, d, b),
{
    assert forall|b: u64| #[trigger] volume::used(s, sb, b) == volume::used(st, sb, b) by {
        reveal(volume::used);
    }
    volume::lemma_volume_kept(st, s, sb);
    volume::lemma_file_stays(st, s, sb, num, d);
}

/// What was listed once is so in a list that an entry went from.
proof fn lemma_once_removed(e: Seq<EntryView>, k: int, name: Seq<char>)
    requires
        0 <= k < e.len(),
        names::listed_once(e, name),
    ensures
        names::listed_once(e.remove(k), name),
{
    let f = e.remove(k);
    assert forall|a: int, b: int|
        0 <= a < b < f.len() && (#[trigger] f[a]).name == name implies (#[trigger] f[b]).name
        != name by {
        let x = if a < k {
            a
        } else {
            a + 1
        };
        let y = if b < k {
            b
        } else {
            b + 1
        };
        assert(f[a] == e[x] && f[b] == e[y]);
        assert(e[x].name == name ==> e[y].name != name);
    }
}

/// What making way changes: one block of the directory, at most.
#[verifier::rlimit(100)]
pub proof fn lemma_cleared(
    v: VolState,
    sb: Superblock,
    dst: u32,
    dd: nat,
    to: Seq<char>,
    log: Seq<u64>,
)
    requires
        volume::sound_file(requests::at_rest(v), sb, dst, dd),
        append::clear_of(requests::at_rest(v), sb, dst, dd, log),
        ({
            let h = volume::inode_now(requests::at_rest(v), sb, dst);
            &&& dir::dir_entries(v.disk, sb, h) is Ok
            &&& dirs::all_fit(v.disk, sb, h, dir::dir_blocks(sb, h))
        }),
        may_take(v, sb, dst, to),
        dir_write::displaced(requests::at_rest(v), sb, v.gdt, dst, to).1 is Ok,
    ensures
        ({
            let bs = sb.block_size;
            let st = requests::at_rest(v);
            let h = volume::inode_now(st, sb, dst);
            let e = dir::dir_entries(v.disk, sb, h)->Ok_0;
            let s = cleared(v, sb, dst, to);
            let f = rest(v, sb, dst, to);
            &&& s.disk == v.disk
            &&& s.gdt == v.gdt
            &&& pins::whole(s, sb)
            &&& volume::sees(s, bs, log, renames::settled(s, sb))
            &&& dir::dir_entries(renames::settled(s, sb), sb, h) is Ok
            &&& dir::first_named(f, to) is None
            &&& forall|other: Seq<char>|
                other != to ==> #[trigger] dir::first_named(f, other) == dir::first_named(e, other)
            &&& forall|other: Seq<char>|
                names::listed_once(e, other) ==> #[trigger] names::listed_once(f, other)
            &&& forall|b: u64|
                b == volume::table_block(st.gdt, sb, dst) || volume::node_block(st, sb, dst, dd, b)
                    || append::foreign(st, sb, dst, dd, b) ==> #[trigger] volume::agrees(s, bs, b)
        }),
{
    let bs = sb.block_size;
    let st = requests::at_rest(v);
    let h = volume::inode_now(st, sb, dst);
    let n = dir::dir_blocks(sb, h);
    let e = dir::dir_entries(v.disk, sb, h)->Ok_0;
    let s = cleared(v, sb, dst, to);
    let name = dir_write::name_bytes(to);
    requests::lemma_at_rest(v, sb, dst);
    text::law_encoded_is_read(to);
    assert forall|c: u64| #[trigger] volume::agrees(st, bs, c) by {
        reveal(volume::agrees);
    }
    let q = dir_write::found(v.disk, sb, v.gdt, dst, Query::Named(name));
    dirs::lemma_sound_dir(st, sb, dst, dd, log);
    if q->Ok_0 is Some {
        let b = renames::lemma_found_is_listed(v.disk, sb, h, name, 0, n);
        renames::lemma_listed_is_named(e, to, b);
        let (l, data) = dirs::lemma_removed_where(st, sb, h, to, 0, n);
        let p = dirs::place(st.disk, sb, h, l)->Ok_0->Some_0;
        assert(s == fs_state::pin(st, p, data));
        dirs::lemma_dir_blocks(sb, h);
        data::lemma_found(st, sb, dst, dd, l as u64);
        let x = volume::extents_now(st, sb, dst);
        assert(extent::mapped(x, l as u64) == Some(p));
        assert(volume::kept_apart(st, sb, dst, p));
        pins::lemma_pinned(st, sb, p, data);
        assert(s.txn.blocks =~= seq![(p, data)]) by {
            assert(st.txn.blocks =~= Seq::empty());
        }
        renames::lemma_settled(s, sb, log);
        let mid = renames::settled(s, sb);
        assert(volume::sees(st, bs, log, st.disk)) by {
            assert forall|c: u64| #![trigger block_device::block_at(st.disk, bs, c)]
                block_device::block_at(st.disk, bs, c) == fs_state::fetched(
                st.disk,
                st.txn.blocks,
                bs,
                c,
            ) by {}
        }
        let k = dirs::law_removed(st, sb, h, dd, to, log, st.disk, mid);
        names::lemma_only_one(e, to, k);
        dirs::law_unlisted_is_not_found(e, k, to);
        assert forall|other: Seq<char>| other != to implies #[trigger] dir::first_named(
            e.remove(k),
            other,
        ) == dir::first_named(e, other) by {
            dirs::law_unlisted_is_not_found(e, k, other);
        }
        assert forall|other: Seq<char>| names::listed_once(e, other) implies #[trigger]
            names::listed_once(e.remove(k), other) by {
            lemma_once_removed(e, k, other);
        }
        assert forall|b: u64|
            b == volume::table_block(st.gdt, sb, dst) || volume::node_block(st, sb, dst, dd, b)
                || append::foreign(st, sb, dst, dd, b) implies #[trigger] volume::agrees(
            s,
            bs,
            b,
        ) by {
            assert(b != p);
            writer::lemma_pin(st.txn.blocks, p, data, b);
            assert(volume::agrees(st, bs, b));
            reveal(volume::agrees);
        }
    } else {
        assert(s == st);
        assert(st.txn.blocks =~= Seq::empty());
        renames::lemma_settled(s, sb, log);
        assert(renames::settled(s, sb) == v.disk);
    }
}

} // verus!
