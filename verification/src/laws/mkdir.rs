//! What making a directory promises of later lookups, once it is committed.
use vstd::prelude::*;
use super::append;
use super::data;
use super::dirs;
use super::names;
use super::pins;
use super::renames;
use super::requests;
use super::settle;
use super::tree;
use super::trim;
use super::volume;
use crate::allocator;
use crate::allocator::block_alloc;
use crate::allocator::inode_alloc;
use crate::block_device;
use crate::block_device::BlockDeviceError;
use crate::bytes;
use crate::clock;
use crate::dir;
use crate::dir::{DirError, EntryView};
use crate::dir_write;
use crate::dir_write::DirWriteError;
use crate::extent;
use crate::extent::ExtentError;
use crate::extent_write;
use crate::fs_context;
use crate::fs_context::VolState;
use crate::fs_state;
use crate::fs_state::FsState;
use crate::fsp_impl;
use crate::fsp_impl::create;
use crate::inode;
use crate::inode::{InodeError, InodeView};
use crate::inode_write;
use crate::inode_write::InodeUpdate;
use crate::journal::writer;
use crate::superblock::Superblock;
use crate::text;

verus! {

/// The inode of a new directory.
pub open spec fn new_dir(now: u32) -> InodeView {
    inode::inode_of(inode_alloc::fresh_record(create::DIR_MODE, 0, 0, now))
}

/// A new directory's tree is an empty leaf.
pub proof fn lemma_new_dir(now: u32)
    ensures
        new_dir(now).is_dir(),
        new_dir(now).uses_extents(),
        new_dir(now).size == 0,
        tree::sound_node(new_dir(now).block_data, 0),
        extent::header(new_dir(now).block_data).eh_entries == 0,
        extent::header(new_dir(now).block_data).eh_max == 4,
        bytes::le32(inode_alloc::fresh_record(create::DIR_MODE, 0, 0, now), 20) == 0,
{
    let i = new_dir(now);
    let r = inode_alloc::fresh_record(create::DIR_MODE, 0, 0, now);
    allocator::laws::law_fresh_inode(create::DIR_MODE, 0, 0, now);
    let b = i.block_data;
    let e = inode_alloc::empty_tree();
    assert forall|j: int| 0 <= j < 12 implies #[trigger] b[j] == e[j] by {
        assert(b.take(12)[j] == b[j]);
    }
    assert(r.len() == 128) by {
        broadcast use bytes::lemma_put_len;

    }
    assert(bytes::le16(b, 0) == 0xF30A && bytes::le16(b, 2) == 0 && bytes::le16(b, 4) == 4
        && bytes::le16(b, 6) == 0) by {
        reveal(bytes::le16);
    }
    assert(bytes::le32(r, 20) == 0) by {
        broadcast use bytes::group_codec;

        assert(r[20] == 0 && r[21] == 0 && r[22] == 0 && r[23] == 0);
        reveal(bytes::le32);
    }
    assert(inode::EXTENTS_FL & inode::EXTENTS_FL != 0) by (bit_vector);
    assert(create::DIR_MODE & 0xF000u16 == 0x4000u16) by (bit_vector);
}

/// A directory of no bytes has no blocks.
pub proof fn lemma_no_blocks(sb: Superblock, i: InodeView)
    requires
        sb.wf(),
        i.size == 0,
    ensures
        dir::dir_blocks(sb, i) == 0,
{
    let n = sb.block_size as int;
    assert(0int / n == 0 && 0int % n == 0) by (nonlinear_arith)
        requires
            n > 0,
    ;
}

/// A new directory on a sound volume is sound.
proof fn lemma_new_dir_sound(st: FsState, sb: Superblock, num: u32, now: u32)
    requires
        volume::sound_volume(st, sb),
        inode::inode_at(st.disk, sb, st.gdt, num) == Ok::<InodeView, InodeError>(new_dir(now)),
        st.gdt[inode::group_of(sb, num)].inode_table + inode::index_of(sb, num)
            / inode::inodes_per_block(sb) <= u64::MAX,
        ({
            let t = volume::table_block(st.gdt, sb, num);
            &&& block_device::block_at(st.disk, sb.block_size, t) is Ok
            &&& volume::used(st, sb, t)
            &&& !volume::is_group_block(st.gdt, sb, t)
            &&& volume::agrees(st, sb.block_size, t)
        }),
    ensures
        dirs::sound_dir_file(st, sb, num, 0),
        volume::inode_now(st, sb, num) == new_dir(now),
        volume::extents_now(st, sb, num) == Seq::<extent::ExtentLeaf>::empty(),
        forall|b: u64| #[trigger]
            append::foreign(st, sb, num, 0, b) == volume::kept_apart(st, sb, num, b),
{
    lemma_new_dir(now);
    let root = new_dir(now).block_data;
    assert(extent::node_leaves(root) =~= Seq::<extent::ExtentLeaf>::empty());
    assert(volume::extents_now(st, sb, num) == Seq::<extent::ExtentLeaf>::empty());
    assert forall|b: u64| !(#[trigger] volume::node_block(st, sb, num, 0, b)) by {}
    assert(0int % sb.block_size as int == 0 && 0int / sb.block_size as int == 0)
        by (nonlinear_arith)
        requires
            sb.block_size > 0,
    ;
}

/// A block with one short entry has room for another.
proof fn lemma_lone_has_room(bs: u32, num: u32, parent: u32) -> (k: int)
    requires
        block_device::valid_block_size(bs),
        num != 0,
        parent != 0,
    ensures
        ({
            let dot = dir_write::name_bytes("."@);
            let up = dir_write::name_bytes(".."@);
            let ft = dir::dir_file_type::DIR;
            let b = dir_write::with_dirent(
                bytes::zeros(bs as int),
                0,
                num,
                dot,
                ft,
                dir_write::coded_len(bs),
            );
            let r = dir_write::inserted_at(b, 0, up, parent, ft);
            &&& dot.len() <= 255
            &&& up.len() <= 255
            &&& r is Ok
            &&& r->Ok_0 is Some
            &&& r->Ok_0->Some_0.len() == bs
            &&& 0 <= k <= 1
            &&& dir::block_entries(r->Ok_0->Some_0, 0) == Ok::<Seq<EntryView>, DirError>(
                seq![EntryView { inode_num: num, name: "."@, file_type: ft }].insert(
                    k,
                    EntryView { inode_num: parent, name: ".."@, file_type: ft },
                ),
            )
        }),
{
    let dot = dir_write::name_bytes("."@);
    let up = dir_write::name_bytes(".."@);
    let ft = dir::dir_file_type::DIR;
    let z = bytes::zeros(bs as int);
    let len = dir_write::coded_len(bs);
    let b = dir_write::with_dirent(z, 0, num, dot, ft, len);
    lemma_dots();
    dirs::lemma_dirent(z, 0, num, dot, ft, len);
    dirs::lemma_lone_entry(bs, num, dot, ft);
    text::law_encoded_is_read("."@);
    text::law_encoded_is_read(".."@);
    dirs::law_inserted_in_block(b, 0, up, parent, ft)
}

/// The names of a directory's own entries are one and two dots.
pub proof fn lemma_dots()
    ensures
        dir_write::name_bytes("."@).len() == 1,
        dir_write::name_bytes(".."@).len() == 2,
        dir_write::name_bytes(".."@)[0] == 46,
        dir_write::name_bytes(".."@)[1] == 46,
        "."@ != ".."@,
{
    reveal_strlit(".");
    reveal_strlit("..");
    reveal_with_fuel(vstd::utf8::encode_utf8, 3);
    assert("."@[0] as u32 == 46 && ".."@[0] as u32 == 46 && ".."@[1] as u32 == 46);
    assert(".."@.drop_first()[0] == ".."@[1]);
    assert(vstd::utf8::leading_byte_width_1(46) == 46) by (bit_vector);
    assert("."@.len() == 1 && ".."@.len() == 2);
}

/// The block of the first entry of a directory that had no blocks: it is the
/// directory's first, and the transaction sees that entry alone in it. Gives the
/// depth of the tree, and the block.
#[verifier::rlimit(100)]
proof fn lemma_first_block(
    st: FsState,
    sb: Superblock,
    dir_num: u32,
    name: Seq<u8>,
    num: u32,
    file_type: u8,
    log: Seq<u64>,
) -> (r: (nat, u64))
    requires
        dirs::sound_dir_file(st, sb, dir_num, 0),
        volume::inode_now(st, sb, dir_num).size == 0,
        append::clear_of(st, sb, dir_num, 0, log),
        dir_write::inserted(st, sb, st.gdt, dir_num, name, num, file_type).1 is Ok,
    ensures
        ({
            let (d, fresh) = r;
            let bs = sb.block_size;
            let s = dir_write::inserted(st, sb, st.gdt, dir_num, name, num, file_type).0;
            let t = volume::table_block(st.gdt, sb, dir_num);
            let i = inode::inode_in_txn(s.disk, sb, s.gdt, s.txn.blocks, dir_num);
            let j = i->Ok_0;
            &&& i is Ok
            &&& j.size == bs
            &&& j.is_dir()
            &&& dirs::sound_dir(s, sb, j, d, log)
            &&& s.disk.len() == st.disk.len()
            &&& dirs::place(s.disk, sb, j, 0) == Ok::<Option<u64>, ExtentError>(Some(fresh))
            &&& fs_state::fetched(s.disk, s.txn.blocks, bs, fresh) == Ok::<
                Seq<u8>,
                BlockDeviceError,
            >(
                dir_write::with_dirent(
                    bytes::zeros(bs as int),
                    0,
                    num,
                    name,
                    file_type,
                    dir_write::coded_len(bs),
                ),
            )
            &&& inode::inode_at(s.disk, sb, s.gdt, dir_num) is Ok
            &&& inode::inode_at(s.disk, sb, s.gdt, dir_num)->Ok_0.size == 0
            &&& fresh != t
            &&& !tree::within(s.disk, bs, j.block_data, d, t)
            &&& forall|b: u64| #[trigger]
                append::foreign(st, sb, dir_num, 0, b) ==> b != fresh && !tree::within(
                    s.disk,
                    bs,
                    j.block_data,
                    d,
                    b,
                )
        }),
{
    let bs = sb.block_size;
    let i = volume::inode_now(st, sb, dir_num);
    let t = volume::table_block(st.gdt, sb, dir_num);
    let o = inode::slot_offset(sb, dir_num);
    dirs::lemma_sound_dir(st, sb, dir_num, 0, log);
    volume::lemma_extents(st, sb, dir_num, 0);
    volume::lemma_slot_read(st, sb, dir_num);
    lemma_no_blocks(sb, i);
    let s = dir_write::inserted(st, sb, st.gdt, dir_num, name, num, file_type).0;
    let data = dir_write::with_dirent(
        bytes::zeros(bs as int),
        0,
        num,
        name,
        file_type,
        dir_write::coded_len(bs),
    );
    assert(data.len() == bs) by {
        broadcast use bytes::lemma_put_len;

    }
    let (s1, r1) = block_alloc::allocated(st, sb, 1, 0);
    let fresh = r1->Ok_0;
    let s2 = fs_state::pin(s1, fresh, data);
    dirs::lemma_pinned_ready(st, sb, dir_num, 0, 0, data);
    let s3 = extent_write::appended(s2, sb, dir_num, fresh, 1).0;
    let d3 = append::law_appended(s2, sb, dir_num, 0, fresh, 1);
    append::lemma_later(st, s2, s3, sb);
    dirs::lemma_clear_grown(st, s2, s3, sb, dir_num, 0, d3, fresh, log);
    dirs::lemma_sound_dir(s3, sb, dir_num, d3, log);
    volume::lemma_extents(s3, sb, dir_num, d3);
    volume::lemma_slot_read(s3, sb, dir_num);
    let u = InodeUpdate { size: Some((i.size + bs) as u64), ..inode_write::no_update() };
    let x = block_device::block_at(s3.disk, bs, t)->Ok_0;
    let rec = x.subrange(o, o + 128);
    let y = bytes::put(x, o, inode_write::updated_record(rec, u));
    inode_write::lemma_updated_record(rec, u);
    reveal(volume::agrees);
    assert(s == fs_state::pin(s3, t, y));
    writer::lemma_pin(s3.txn.blocks, t, y, t);
    assert(y.subrange(o, o + 128) =~= inode_write::updated_record(rec, u));
    let i3 = volume::inode_now(s3, sb, dir_num);
    assert forall|b: u64| #[trigger] tree::within(s.disk, bs, i3.block_data, d3, b) implies
        volume::agrees(s, bs, b) && !log.contains(b) by {
        assert(volume::node_block(s3, sb, dir_num, d3, b));
        assert(volume::kept_apart(s3, sb, dir_num, b));
        assert(volume::agrees(s3, bs, b));
        writer::lemma_pin(s3.txn.blocks, t, y, b);
    }
    data::lemma_found(s3, sb, dir_num, d3, 0);
    assert(extent::mapped(volume::extents_now(s3, sb, dir_num), 0) == Some(fresh));
    assert(append::bystander(s3, sb, dir_num, d3, fresh));
    writer::lemma_pin(s3.txn.blocks, t, y, fresh);
    assert forall|b: u64| #[trigger] append::foreign(st, sb, dir_num, 0, b) implies b != fresh
        && !tree::within(s.disk, bs, i3.block_data, d3, b) by {
        assert(append::bystander(st, sb, dir_num, 0, b));
        assert(append::bystander(s2, sb, dir_num, 0, b));
        assert(append::bystander(s3, sb, dir_num, d3, b));
        assert(!volume::node_block(s3, sb, dir_num, d3, b));
    }
    assert(!volume::node_block(s3, sb, dir_num, d3, t)) by {
        if volume::node_block(s3, sb, dir_num, d3, t) {
            assert(volume::kept_apart(s3, sb, dir_num, t));
        }
    }
    (d3, fresh)
}


/// The entries of a new directory, as far as they go: itself and its parent.
pub open spec fn own_entries(num: u32, parent: u32, k: int) -> Seq<EntryView> {
    seq![EntryView { inode_num: num, name: "."@, file_type: dir::dir_file_type::DIR }].insert(
        k,
        EntryView { inode_num: parent, name: ".."@, file_type: dir::dir_file_type::DIR },
    )
}

/// The state after a new directory got its own entries.
pub open spec fn with_own_entries(st: FsState, sb: Superblock, parent: u32, num: u32) -> FsState {
    let s1 = dir_write::added(st, sb, st.gdt, num, "."@, num, dir::dir_file_type::DIR).0;
    dir_write::added(s1, sb, s1.gdt, num, ".."@, parent, dir::dir_file_type::DIR).0
}

/// What giving a new directory its own entries changes: its record, and blocks that
/// were not used. Gives the depth of its tree, its block, and where the second entry
/// is listed.
#[verifier::rlimit(100)]
proof fn lemma_own_frame(st: FsState, sb: Superblock, parent: u32, num: u32, log: Seq<u64>) -> (r: (
    nat,
    u64,
    int,
))
    requires
        own_ready(st, sb, parent, num, log),
    ensures
        ({
            let (d, fresh, k) = r;
            let bs = sb.block_size;
            let s1 = dir_write::added(st, sb, st.gdt, num, "."@, num, dir::dir_file_type::DIR).0;
            let s = with_own_entries(st, sb, parent, num);
            let t = volume::table_block(st.gdt, sb, num);
            let o = inode::slot_offset(sb, num);
            let f = fs_state::fetched(s.disk, s.txn.blocks, bs, t);
            let i = inode::live_inode(f->Ok_0.subrange(o, o + 128), num);
            let j = i->Ok_0;
            let b = fs_state::fetched(s.disk, s.txn.blocks, bs, fresh);
            &&& pins::whole(s, sb)
            &&& settle::still_pinned(s1, s)
            &&& dir_write::added(s1, sb, s1.gdt, num, ".."@, parent, dir::dir_file_type::DIR).1
                is Ok
            &&& s.disk == s1.disk
            &&& s.disk.len() == st.disk.len()
            &&& volume::same_layout(st.gdt, s.gdt)
            &&& f is Ok
            &&& volume::same_beside(
                f->Ok_0,
                block_device::block_at(st.disk, bs, t)->Ok_0,
                sb,
                num,
            )
            &&& i is Ok
            &&& j.is_dir()
            &&& j.size == bs
            &&& dirs::sound_dir(s1, sb, j, d, log)
            &&& dirs::place(s.disk, sb, j, 0) == Ok::<Option<u64>, ExtentError>(Some(fresh))
            &&& b is Ok
            &&& 0 <= k <= 1
            &&& dir::block_entries(b->Ok_0, 0) == Ok::<Seq<EntryView>, DirError>(
                own_entries(num, parent, k),
            )
            &&& fresh != t
            &&& !log.contains(fresh)
            &&& !tree::within(s.disk, bs, j.block_data, d, t)
            &&& forall|c: u64| #[trigger]
                tree::within(s.disk, bs, j.block_data, d, c) ==> fs_state::fetched(
                    s.disk,
                    s.txn.blocks,
                    bs,
                    c,
                ) == block_device::block_at(s.disk, bs, c)
            &&& forall|c: u64| #[trigger]
                append::foreign(st, sb, num, 0, c) ==> volume::untouched(st, s, bs, c) && c != fresh
                    && !tree::within(s.disk, bs, j.block_data, d, c)
        }),
{
    reveal(own_ready);
    let bs = sb.block_size;
    let ft = dir::dir_file_type::DIR;
    let dot = dir_write::name_bytes("."@);
    let up = dir_write::name_bytes(".."@);
    let t = volume::table_block(st.gdt, sb, num);
    let s1 = dir_write::added(st, sb, st.gdt, num, "."@, num, ft).0;
    assert(s1 == dir_write::inserted(st, sb, st.gdt, num, dot, num, ft).0);
    volume::lemma_slot_read(st, sb, num);
    volume::lemma_extents(st, sb, num, 0);
    assert(tree::end_of(volume::extents_now(st, sb, num)) == 0) by {
        assert(0int / (bs as int) == 0) by (nonlinear_arith)
            requires
                bs > 0,
        ;
    }
    let (d, fresh) = lemma_first_block(st, sb, num, dot, num, ft, log);
    dirs::lemma_entered_frame(st, sb, num, 0, dot, num, ft);
    pins::law_added_whole(st, sb, num, "."@, num, ft);
    let j = inode::inode_in_txn(s1.disk, sb, s1.gdt, s1.txn.blocks, num)->Ok_0;
    let g = inode::group_of(sb, num);
    assert(st.gdt[g].inode_table == s1.gdt[g].inode_table);
    renames::lemma_txn_inode(s1, sb, s1.gdt, num);
    let k = lemma_lone_has_room(bs, num, parent);
    let b1 = fs_state::fetched(s1.disk, s1.txn.blocks, bs, fresh)->Ok_0;
    let b2 = dir_write::inserted_at(b1, 0, up, parent, ft)->Ok_0->Some_0;
    assert(dir::dir_blocks(sb, j) == 1) by {
        lemma_one_block(bs);
    }
    let s = with_own_entries(st, sb, parent, num);
    lemma_no_blocks(sb, inode::inode_at(s1.disk, sb, s1.gdt, num)->Ok_0);
    assert(dir_write::inserted_from(s1, sb, j, up, parent, ft, 0, 1) == (
        fs_state::pin(s1, fresh, b2),
        Ok::<bool, DirWriteError>(true),
    ));
    assert(s == fs_state::pin(s1, fresh, b2));
    pins::law_added_whole(s1, sb, num, ".."@, parent, ft);
    writer::lemma_pin(s1.txn.blocks, fresh, b2, t);
    writer::lemma_pin(s1.txn.blocks, fresh, b2, fresh);
    renames::lemma_still_pinned(s1.txn.blocks, fresh, b2);
    assert forall|c: u64| #[trigger] append::foreign(st, sb, num, 0, c) implies volume::untouched(
        st,
        s,
        bs,
        c,
    ) && c != fresh && !tree::within(s.disk, bs, j.block_data, d, c) by {
        writer::lemma_pin(s1.txn.blocks, fresh, b2, c);
    }
    dirs::lemma_places(s1, sb, j, d, log, s1.disk, 1);
    assert(dirs::place(s1.disk, sb, j, 0) is Ok);
    assert forall|c: u64| #[trigger] tree::within(s.disk, bs, j.block_data, d, c) implies
        fs_state::fetched(s.disk, s.txn.blocks, bs, c) == block_device::block_at(s.disk, bs, c) by {
        assert(volume::agrees(s1, bs, c));
        reveal(volume::agrees);
        writer::lemma_pin(s1.txn.blocks, fresh, b2, c);
    }
    (d, fresh, k)
}

proof fn lemma_one_block(bs: u32)
    requires
        bs > 0,
    ensures
        bytes::ceil_div(bs as int, bs as int) == 1,
{
    assert((bs as int) / (bs as int) == 1 && (bs as int) % (bs as int) == 0) by (nonlinear_arith)
        requires
            bs > 0,
    ;
}

/// Whether a new directory can get its own entries.
#[verifier::opaque]
pub open spec fn own_ready(
    st: FsState,
    sb: Superblock,
    parent: u32,
    num: u32,
    log: Seq<u64>,
) -> bool {
    let ft = dir::dir_file_type::DIR;
    let r1 = dir_write::added(st, sb, st.gdt, num, "."@, num, ft).1;
    &&& pins::whole(st, sb)
    &&& dirs::sound_dir_file(st, sb, num, 0)
    &&& volume::inode_now(st, sb, num).size == 0
    &&& append::clear_of(st, sb, num, 0, log)
    &&& num != 0
    &&& parent != 0
    &&& r1 is Ok
}

/// A new directory that got the entry of itself has room for that of its parent, and
/// then lists both, once the transaction's blocks are in place, but for block `x` that
/// the directory does not hold. Gives where the second entry is listed.
#[verifier::rlimit(100)]
pub proof fn law_own_entries(
    st: FsState,
    sb: Superblock,
    parent: u32,
    num: u32,
    log: Seq<u64>,
    x: u64,
    disk: Seq<u8>,
) -> (k: int)
    requires
        own_ready(st, sb, parent, num, log),
        x == volume::table_block(st.gdt, sb, num) || append::foreign(st, sb, num, 0, x),
        disk.len() == st.disk.len(),
        forall|b: u64| #![trigger block_device::block_at(disk, sb.block_size, b)]
            b != x && !log.contains(b) ==> block_device::block_at(disk, sb.block_size, b)
                == fs_state::fetched(
                with_own_entries(st, sb, parent, num).disk,
                with_own_entries(st, sb, parent, num).txn.blocks,
                sb.block_size,
                b,
            ),
    ensures
        ({
            let s = with_own_entries(st, sb, parent, num);
            let t = volume::table_block(st.gdt, sb, num);
            let o = inode::slot_offset(sb, num);
            let f = fs_state::fetched(s.disk, s.txn.blocks, sb.block_size, t);
            let j = inode::live_inode(f->Ok_0.subrange(o, o + 128), num);
            let ft = dir::dir_file_type::DIR;
            let s1 = dir_write::added(st, sb, st.gdt, num, "."@, num, ft).0;
            &&& dir_write::added(s1, sb, s1.gdt, num, ".."@, parent, ft).1 is Ok
            &&& j is Ok
            &&& 0 <= k <= 1
            &&& dir::dir_entries(disk, sb, j->Ok_0) == Ok::<Seq<EntryView>, DirError>(
                own_entries(num, parent, k),
            )
        }),
{
    reveal(own_ready);
    let bs = sb.block_size;
    let t = volume::table_block(st.gdt, sb, num);
    let o = inode::slot_offset(sb, num);
    let s1 = dir_write::added(st, sb, st.gdt, num, "."@, num, dir::dir_file_type::DIR).0;
    let s = with_own_entries(st, sb, parent, num);
    let (d, fresh, k) = lemma_own_frame(st, sb, parent, num, log);
    let f = fs_state::fetched(s.disk, s.txn.blocks, bs, t)->Ok_0;
    let j = inode::live_inode(f.subrange(o, o + 128), num)->Ok_0;
    assert forall|b: u64| #[trigger] tree::within(s1.disk, bs, j.block_data, d, b) implies
        block_device::block_at(disk, bs, b) == block_device::block_at(s1.disk, bs, b) by {
        assert(tree::within(s.disk, bs, j.block_data, d, b));
        assert(b != x);
    }
    dirs::lemma_places(s1, sb, j, d, log, disk, 1);
    assert(dirs::place(disk, sb, j, 0) == dirs::place(s1.disk, sb, j, 0));
    lemma_one_block(bs);
    assert(dir::entries_from(disk, sb, j, 1, 1) == Ok::<Seq<EntryView>, DirError>(Seq::empty()));
    let e = own_entries(num, parent, k);
    assert(e + Seq::<EntryView>::empty() =~= e);
    k
}

/// The state in which a new directory gets its own entries, after its entry went
/// into its parent, with the block of its record in place. That may hold the
/// parent's record too, which may have changed.
pub open spec fn entered(
    st: FsState,
    sb: Superblock,
    parent: u32,
    name: Seq<char>,
    num: u32,
) -> FsState {
    settle::placed(
        dir_write::added(st, sb, st.gdt, parent, name, num, dir::dir_file_type::DIR).0,
        sb,
        volume::table_block(st.gdt, sb, num),
    )
}

/// Whether the entry of a new inode `num` can go into its parent, and that of a
/// directory its own entries.
#[verifier::opaque]
pub open spec fn may_enter(
    st: FsState,
    sb: Superblock,
    parent: u32,
    d: nat,
    name: Seq<char>,
    num: u32,
    now: u32,
    log: Seq<u64>,
) -> bool {
    let ft = dir::dir_file_type::DIR;
    let t = volume::table_block(st.gdt, sb, num);
    let o = inode::slot_offset(sb, num);
    let b = block_device::block_at(st.disk, sb.block_size, t);
    let (s, r) = dir_write::added(st, sb, st.gdt, parent, name, num, ft);
    let (s1, r1) = dir_write::added(s, sb, s.gdt, num, "."@, num, ft);
    &&& names::may_grow(st, sb, parent, d)
    &&& append::clear_of(st, sb, parent, d, log)
    &&& pins::whole(st, sb)
    &&& st.disk.len() % 512 == 0
    &&& forall|c: u64| #[trigger] volume::agrees(st, sb.block_size, c)
    &&& num != 0
    &&& r is Ok
    &&& r1 is Ok
    &&& dir_write::added(s1, sb, s1.gdt, num, ".."@, parent, ft).1 is Ok
    &&& inode_write::apart(sb, st.gdt, parent, num)
    &&& t == volume::table_block(st.gdt, sb, parent) || append::foreign(st, sb, parent, d, t)
    &&& !log.contains(t)
    &&& b is Ok
    &&& b->Ok_0.subrange(o, o + 128) == inode_alloc::fresh_record(create::DIR_MODE, 0, 0, now)
}

/// After the entry of a new directory went into its parent, the record of the new
/// one is as it was.
#[verifier::rlimit(100)]
proof fn lemma_still_fresh(
    st: FsState,
    sb: Superblock,
    parent: u32,
    d: nat,
    name: Seq<char>,
    num: u32,
    now: u32,
    log: Seq<u64>,
)
    requires
        may_enter(st, sb, parent, d, name, num, now, log),
    ensures
        ({
            let s = dir_write::added(
                st,
                sb,
                st.gdt,
                parent,
                name,
                num,
                dir::dir_file_type::DIR,
            ).0;
            &&& settle::fresh_in_both(s, sb, num, now)
            &&& pins::whole(s, sb)
            &&& volume::later(st, s, sb)
            &&& volume::table_block(s.gdt, sb, num) == volume::table_block(st.gdt, sb, num)
        }),
{
    reveal(may_enter);
    let bs = sb.block_size;
    let ft = dir::dir_file_type::DIR;
    let bytes = dir_write::name_bytes(name);
    let t = volume::table_block(st.gdt, sb, num);
    let tp = volume::table_block(st.gdt, sb, parent);
    let o = inode::slot_offset(sb, num);
    let s = dir_write::added(st, sb, st.gdt, parent, name, num, ft).0;
    let rec = inode_alloc::fresh_record(create::DIR_MODE, 0, 0, now);
    assert(s == dir_write::inserted(st, sb, st.gdt, parent, bytes, num, ft).0);
    volume::lemma_slot_read(st, sb, parent);
    let _ = dirs::lemma_entered_sound(st, sb, parent, d, bytes, num, ft, log);
    dirs::lemma_entered_frame(st, sb, parent, d, bytes, num, ft);
    pins::law_added_whole(st, sb, parent, name, num, ft);
    lemma_new_dir(now);
    // The inode can be read, as an entry was added to it.
    names::lemma_slot_bounds(s.disk, sb, s.gdt, num);
    let g = inode::group_of(sb, num);
    assert(st.gdt[g].inode_table == s.gdt[g].inode_table);
    inode::lemma_slot_offset(sb, num);
    volume::lemma_readable(s.disk, st.disk, bs, t);
    let w = block_device::block_at(st.disk, bs, t)->Ok_0;
    let x = fs_state::fetched(s.disk, s.txn.blocks, bs, t)->Ok_0;
    let y = block_device::block_at(s.disk, bs, t)->Ok_0;
    block_device::lemma_block_at(st.disk, bs, t);
    block_device::lemma_block_at(s.disk, bs, t);
    assert(volume::agrees(st, bs, t));
    assert(fs_state::fetched(s.disk, s.txn.blocks, bs, t) is Ok && x.len() == bs && x.subrange(
        o,
        o + 128,
    ) == rec && y.subrange(o, o + 128) == rec) by {
        if t == tp {
            names::lemma_record_beside(x, w, sb, parent, num);
            names::lemma_record_beside(y, w, sb, parent, num);
        } else {
            assert(volume::untouched(st, s, bs, t));
            reveal(volume::agrees);
        }
    }
    volume::lemma_record_in_block(s.disk, sb, s.gdt, num);
    assert(volume::used(s, sb, t) && !volume::is_group_block(s.gdt, sb, t)) by {
        if t != tp {
            assert(append::bystander(st, sb, parent, d, t));
        }
        assert(volume::used(st, sb, t));
        trim::lemma_same_groups(st, s, sb, t);
    }
}

/// A new directory whose record's block is in place is sound.
#[verifier::rlimit(100)]
proof fn lemma_placed_sound(s: FsState, sb: Superblock, num: u32, now: u32)
    requires
        settle::fresh_in_both(s, sb, num, now),
    ensures
        ({
            let t = volume::table_block(s.gdt, sb, num);
            let sx = settle::placed(s, sb, t);
            &&& dirs::sound_dir_file(sx, sb, num, 0)
            &&& volume::inode_now(sx, sb, num) == new_dir(now)
            &&& volume::extents_now(sx, sb, num) == Seq::<extent::ExtentLeaf>::empty()
            &&& sx.disk.len() == s.disk.len()
            &&& forall|b: u64| #[trigger]
                fs_state::fetched(sx.disk, sx.txn.blocks, sb.block_size, b) == fs_state::fetched(
                    s.disk,
                    s.txn.blocks,
                    sb.block_size,
                    b,
                )
            &&& forall|b: u64| #[trigger]
                append::foreign(sx, sb, num, 0, b) == (volume::used(s, sb, b)
                    && !volume::is_group_block(s.gdt, sb, b) && b != t)
        }),
{
    let bs = sb.block_size;
    let t = volume::table_block(s.gdt, sb, num);
    let o = inode::slot_offset(sb, num);
    let sx = settle::placed(s, sb, t);
    let x = fs_state::fetched(s.disk, s.txn.blocks, bs, t)->Ok_0;
    names::lemma_slot_bounds(s.disk, sb, s.gdt, num);
    volume::lemma_record_in_block(s.disk, sb, s.gdt, num);
    block_device::lemma_block_at(s.disk, bs, t);
    block_device::lemma_block_write_read(s.disk, bs, t, x, t);
    assert forall|c: u64| !(t <= c < t + 1) implies #[trigger] block_device::block_at(
        sx.disk,
        bs,
        c,
    ) == block_device::block_at(s.disk, bs, c) by {
        block_device::lemma_block_write_read(s.disk, bs, t, x, c);
    }
    data::lemma_same_bitmaps(s, sx, sb, t, 1);
    volume::lemma_volume_kept(s, sx, sb);
    assert forall|b: u64| #[trigger] fs_state::fetched(sx.disk, sx.txn.blocks, bs, b)
        == fs_state::fetched(s.disk, s.txn.blocks, bs, b) by {
        if b != t {
            assert(block_device::block_at(sx.disk, bs, b) == block_device::block_at(
                s.disk,
                bs,
                b,
            ));
        }
    }
    assert(volume::agrees(sx, bs, t)) by {
        assert(fs_state::fetched(sx.disk, sx.txn.blocks, bs, t) == fs_state::fetched(
            s.disk,
            s.txn.blocks,
            bs,
            t,
        ));
        reveal(volume::agrees);
    }
    volume::lemma_record_in_block(sx.disk, sb, sx.gdt, num);
    lemma_new_dir_sound(sx, sb, num, now);
    assert forall|b: u64| #[trigger] append::foreign(sx, sb, num, 0, b) == (volume::used(s, sb, b)
        && !volume::is_group_block(s.gdt, sb, b) && b != t) by {
        assert(volume::used(sx, sb, b) == volume::used(s, sb, b));
    }
}

/// After the entry of a new directory went into its parent, the new one is ready
/// for its own.
#[verifier::rlimit(100)]
proof fn lemma_ready(
    st: FsState,
    sb: Superblock,
    parent: u32,
    d: nat,
    name: Seq<char>,
    num: u32,
    now: u32,
    log: Seq<u64>,
)
    requires
        may_enter(st, sb, parent, d, name, num, now, log),
    ensures
        ({
            let ft = dir::dir_file_type::DIR;
            let s = dir_write::added(st, sb, st.gdt, parent, name, num, ft).0;
            let sx = entered(st, sb, parent, name, num);
            &&& own_ready(sx, sb, parent, num, log)
            &&& with_own_entries(sx, sb, parent, num) == with_own_entries(s, sb, parent, num)
            &&& dir_write::added(sx, sb, sx.gdt, num, "."@, num, ft) == dir_write::added(
                s,
                sb,
                s.gdt,
                num,
                "."@,
                num,
                ft,
            )
            &&& dir_write::added(s, sb, s.gdt, num, "."@, num, ft).1 is Ok
        }),
{
    reveal(own_ready);
    reveal(may_enter);
    let bs = sb.block_size;
    let ft = dir::dir_file_type::DIR;
    let t = volume::table_block(st.gdt, sb, num);
    let s = dir_write::added(st, sb, st.gdt, parent, name, num, ft).0;
    let sx = entered(st, sb, parent, name, num);
    lemma_still_fresh(st, sb, parent, d, name, num, now, log);
    lemma_placed_sound(s, sb, num, now);
    settle::lemma_placed_first(s, sb, num, now, "."@, num, ft);
    lemma_new_dir(now);
    volume::lemma_slot_read(st, sb, parent);
    assert forall|b: u64| #[trigger] log.contains(b) implies append::bystander(
        sx,
        sb,
        num,
        0,
        b,
    ) && append::unmapped(volume::extents_now(sx, sb, num), b) by {
        assert(append::bystander(st, sb, parent, d, b));
        assert(volume::used(s, sb, b));
        trim::lemma_same_groups(st, s, sb, b);
        assert(append::foreign(sx, sb, num, 0, b));
    }
}

/// Once all is in place, the parent of a new directory lists that among what it
/// listed, as its inode is after the entry went in. Gives where.
#[verifier::rlimit(100)]
proof fn lemma_parent_lists(
    st: FsState,
    sb: Superblock,
    parent: u32,
    d: nat,
    name: Seq<char>,
    num: u32,
    now: u32,
    log: Seq<u64>,
    disk: Seq<u8>,
) -> (k: int)
    requires
        may_enter(st, sb, parent, d, name, num, now, log),
        dir::dir_entries(st.disk, sb, volume::inode_now(st, sb, parent)) is Ok,
        disk.len() == st.disk.len(),
        ({
            let s = dir_write::added(
                st,
                sb,
                st.gdt,
                parent,
                name,
                num,
                dir::dir_file_type::DIR,
            ).0;
            &&& forall|i: int|
                0 <= i < s.txn.blocks.len() ==> block_device::block_at(
                    s.disk,
                    sb.block_size,
                    (#[trigger] s.txn.blocks[i]).0,
                ) is Ok
            &&& forall|b: u64| #![trigger block_device::block_at(disk, sb.block_size, b)]
                volume::used(s, sb, b) && !volume::is_group_block(s.gdt, sb, b) && !log.contains(b)
                    && b != volume::table_block(st.gdt, sb, parent) && b != volume::table_block(
                    st.gdt,
                    sb,
                    num,
                ) ==> block_device::block_at(disk, sb.block_size, b) == fs_state::fetched(
                    s.disk,
                    s.txn.blocks,
                    sb.block_size,
                    b,
                )
        }),
    ensures
        ({
            let s = dir_write::added(
                st,
                sb,
                st.gdt,
                parent,
                name,
                num,
                dir::dir_file_type::DIR,
            ).0;
            let tp = volume::table_block(st.gdt, sb, parent);
            let op = inode::slot_offset(sb, parent);
            let f = fs_state::fetched(s.disk, s.txn.blocks, sb.block_size, tp);
            let i = inode::live_inode(f->Ok_0.subrange(op, op + 128), parent);
            let e = dir::dir_entries(st.disk, sb, volume::inode_now(st, sb, parent))->Ok_0;
            &&& f is Ok
            &&& f->Ok_0.len() == sb.block_size
            &&& i is Ok
            &&& 0 <= k <= e.len()
            &&& dir::dir_entries(disk, sb, i->Ok_0) == Ok::<Seq<EntryView>, DirError>(
                e.insert(
                    k,
                    EntryView { inode_num: num, name, file_type: dir::dir_file_type::DIR },
                ),
            )
        }),
{
    reveal(may_enter);
    let bs = sb.block_size;
    let ft = dir::dir_file_type::DIR;
    let bytes = dir_write::name_bytes(name);
    let t = volume::table_block(st.gdt, sb, num);
    let tp = volume::table_block(st.gdt, sb, parent);
    let s = dir_write::added(st, sb, st.gdt, parent, name, num, ft).0;
    assert(s == dir_write::inserted(st, sb, st.gdt, parent, bytes, num, ft).0);
    volume::lemma_slot_read(st, sb, parent);
    pins::law_added_whole(st, sb, parent, name, num, ft);
    renames::lemma_settled(s, sb, log);
    let mid = renames::settled(s, sb);
    assert(volume::sees(st, bs, log, st.disk)) by {
        assert forall|c: u64| #![trigger block_device::block_at(st.disk, bs, c)]
            block_device::block_at(st.disk, bs, c) == fs_state::fetched(
            st.disk,
            st.txn.blocks,
            bs,
            c,
        ) by {
            assert(volume::agrees(st, bs, c));
            reveal(volume::agrees);
        }
    }
    let k = dirs::law_added(st, sb, parent, d, name, num, ft, log, st.disk, mid);
    let d3 = dirs::lemma_entered_sound(st, sb, parent, d, bytes, num, ft, log);
    dirs::lemma_entered_frame(st, sb, parent, d, bytes, num, ft);
    let i = inode::inode_in_txn(s.disk, sb, st.gdt, s.txn.blocks, parent)->Ok_0;
    let n = dir::dir_blocks(sb, i);
    block_device::lemma_block_at(st.disk, bs, tp);
    renames::lemma_txn_inode(s, sb, st.gdt, parent);
    if log.contains(tp) {
        assert(append::bystander(st, sb, parent, d, tp));
    }
    volume::lemma_record_in_block(mid, sb, st.gdt, parent);
    assert(inode::inode_at(mid, sb, st.gdt, parent) == Ok::<InodeView, InodeError>(i));
    let w = extent::tree_leaves(
        s.disk,
        bs,
        i.block_data,
        block_device::sectors(s.disk) as nat,
    )->Ok_0;
    dirs::lemma_dir_blocks(sb, i);
    assert forall|b: u64| #[trigger] tree::within(s.disk, bs, i.block_data, d3, b) implies
        block_device::block_at(disk, bs, b) == block_device::block_at(s.disk, bs, b)
        && block_device::block_at(mid, bs, b) == block_device::block_at(s.disk, bs, b) by {
        assert(volume::kept_apart(s, sb, parent, b));
        assert(volume::agrees(s, bs, b));
        reveal(volume::agrees);
        assert(b != t) by {
            if b == t && t != tp {
                assert(append::foreign(st, sb, parent, d, t));
            }
        }
    }
    dirs::lemma_places(s, sb, i, d3, log, disk, n);
    dirs::lemma_places(s, sb, i, d3, log, mid, n);
    assert forall|y: int|
        0 <= y < n && (#[trigger] dirs::place(mid, sb, i, y)) is Ok && dirs::place(
            mid,
            sb,
            i,
            y,
        )->Ok_0 is Some implies block_device::block_at(
        mid,
        bs,
        dirs::place(mid, sb, i, y)->Ok_0->Some_0,
    ) == block_device::block_at(disk, bs, dirs::place(mid, sb, i, y)->Ok_0->Some_0) by {
        let c = dirs::place(mid, sb, i, y)->Ok_0->Some_0;
        assert(dirs::place(mid, sb, i, y) == dirs::place(s.disk, sb, i, y));
        tree::law_found_as_listed(
            s.disk,
            bs,
            i.block_data,
            d3,
            0,
            tree::LOGICAL_END as int,
            block_device::sectors(s.disk) as nat,
            y as u64,
        );
        assert(extent::mapped(w, y as u64) == Some(c));
        assert(volume::kept_apart(s, sb, parent, c));
        assert(!log.contains(c));
        if c == t && t != tp {
            assert(append::foreign(st, sb, parent, d, t));
            assert(append::unmapped(w, t));
        }
    }
    assert forall|y: int| 0 <= y < n implies #[trigger] dirs::place(mid, sb, i, y) == dirs::place(
        disk,
        sb,
        i,
        y,
    ) by {
        assert(dirs::place(mid, sb, i, y) == dirs::place(s.disk, sb, i, y));
        assert(dirs::place(disk, sb, i, y) == dirs::place(s.disk, sb, i, y));
    }
    dirs::lemma_same_entries(mid, disk, sb, i, 0, n);
    k
}

/// What is on the device once a new directory has its entries, its parent counted
/// the link, and all is committed.
#[verifier::rlimit(100)]
proof fn lemma_linked_up(
    v: VolState,
    st: FsState,
    sb: Superblock,
    parent: u32,
    num: u32,
    was: InodeView,
    u: InodeUpdate,
    log: Seq<u64>,
)
    requires
        v.w.bs == sb.block_size,
        log == v.w.blocks,
        own_ready(st, sb, parent, num, log),
        st.disk.len() % 512 == 0,
        inode_write::apart(sb, st.gdt, parent, num),
        inode::inode_in_range(sb, parent),
        0 <= inode::group_of(sb, parent) < st.gdt.len(),
        st.gdt[inode::group_of(sb, parent)].inode_table + inode::index_of(sb, parent)
            / inode::inodes_per_block(sb) <= u64::MAX,
        inode::slot_byte(sb, st.gdt[inode::group_of(sb, parent)], parent) <= u64::MAX,
        ({
            let t = volume::table_block(st.gdt, sb, num);
            let tp = volume::table_block(st.gdt, sb, parent);
            let op = inode::slot_offset(sb, parent);
            let f = fs_state::fetched(st.disk, st.txn.blocks, sb.block_size, tp);
            &&& tp == t || append::foreign(st, sb, num, 0, tp)
            &&& f is Ok
            &&& f->Ok_0.len() == sb.block_size
            &&& inode::live_inode(f->Ok_0.subrange(op, op + 128), parent) == Ok::<
                InodeView,
                InodeError,
            >(was)
            &&& !log.contains(t)
            &&& !log.contains(tp)
        }),
        ({
            let s5 = with_own_entries(st, sb, parent, num);
            let (s6, r6) = fsp_impl::touched(s5, sb, parent, u);
            &&& r6 is Ok
            &&& fsp_impl::ended(fs_context::after(v, s6), s6.txn).1 is Ok
        }),
    ensures
        ({
            let bs = sb.block_size;
            let t = volume::table_block(st.gdt, sb, num);
            let tp = volume::table_block(st.gdt, sb, parent);
            let o = inode::slot_offset(sb, num);
            let s5 = with_own_entries(st, sb, parent, num);
            let s6 = fsp_impl::touched(s5, sb, parent, u).0;
            let v2 = fsp_impl::ended(fs_context::after(v, s6), s6.txn).0;
            let f = fs_state::fetched(s5.disk, s5.txn.blocks, bs, t);
            &&& v2.disk.len() == st.disk.len()
            &&& inode::inode_at(v2.disk, sb, v2.gdt, parent) == Ok::<InodeView, InodeError>(
                inode_write::updated_inode(was, u),
            )
            &&& inode::inode_at(v2.disk, sb, v2.gdt, num) == inode::live_inode(
                f->Ok_0.subrange(o, o + 128),
                num,
            )
            &&& forall|b: u64| #![trigger block_device::block_at(v2.disk, bs, b)]
                b != tp && !log.contains(b) ==> block_device::block_at(v2.disk, bs, b)
                    == fs_state::fetched(s5.disk, s5.txn.blocks, bs, b)
        }),
{
    reveal(own_ready);
    let bs = sb.block_size;
    let t = volume::table_block(st.gdt, sb, num);
    let tp = volume::table_block(st.gdt, sb, parent);
    let o = inode::slot_offset(sb, num);
    let op = inode::slot_offset(sb, parent);
    let s5 = with_own_entries(st, sb, parent, num);
    let s6 = fsp_impl::touched(s5, sb, parent, u).0;
    let v2 = fsp_impl::ended(fs_context::after(v, s6), s6.txn).0;
    let _ = lemma_own_frame(st, sb, parent, num, log);
    inode::lemma_slot_offset(sb, parent);
    volume::lemma_slot_read(st, sb, num);
    let g = inode::group_of(sb, num);
    let gp = inode::group_of(sb, parent);
    assert(st.gdt[g].inode_table == s5.gdt[g].inode_table);
    assert(st.gdt[gp].inode_table == s5.gdt[gp].inode_table);
    let w = fs_state::fetched(st.disk, st.txn.blocks, bs, tp)->Ok_0;
    let rec = w.subrange(op, op + 128);
    let y = fs_state::fetched(s5.disk, s5.txn.blocks, bs, tp)->Ok_0;
    reveal(volume::agrees);
    assert(fs_state::fetched(s5.disk, s5.txn.blocks, bs, tp) is Ok && y.len() == bs && y.subrange(
        op,
        op + 128,
    ) == rec) by {
        if tp == t {
            names::lemma_record_beside(y, w, sb, num, parent);
        } else {
            assert(volume::untouched(st, s5, bs, tp));
        }
    }
    inode_write::lemma_updated_record(rec, u);
    let z = bytes::put(y, op, inode_write::updated_record(rec, u));
    assert(s6 == fs_state::pin(s5, tp, z));
    pins::lemma_updated(s5, sb, parent, u);
    names::lemma_ended(v, s6, sb);
    writer::lemma_pin(s5.txn.blocks, tp, z, tp);
    writer::lemma_pin(s5.txn.blocks, tp, z, t);
    assert(z.subrange(op, op + 128) =~= inode_write::updated_record(rec, u));
    volume::lemma_inode_seen(s6, sb, parent, log, v2.disk);
    volume::lemma_inode_seen(s6, sb, num, log, v2.disk);
    if tp == t {
        assert(volume::same_beside(z, y, sb, parent));
        names::lemma_record_beside(z, y, sb, parent, num);
    }
    assert forall|b: u64| #![trigger block_device::block_at(v2.disk, bs, b)]
        b != tp && !log.contains(b) implies block_device::block_at(v2.disk, bs, b)
        == fs_state::fetched(s5.disk, s5.txn.blocks, bs, b) by {
        writer::lemma_pin(s5.txn.blocks, tp, z, b);
    }
}

/// The record of the parent after the entry of a new directory went in. Gives its
/// inode.
#[verifier::rlimit(100)]
proof fn lemma_parent_slot(
    st: FsState,
    sb: Superblock,
    parent: u32,
    d: nat,
    name: Seq<char>,
    num: u32,
    now: u32,
    log: Seq<u64>,
) -> (i: InodeView)
    requires
        may_enter(st, sb, parent, d, name, num, now, log),
    ensures
        ({
            let s = dir_write::added(
                st,
                sb,
                st.gdt,
                parent,
                name,
                num,
                dir::dir_file_type::DIR,
            ).0;
            let tp = volume::table_block(st.gdt, sb, parent);
            let op = inode::slot_offset(sb, parent);
            let f = fs_state::fetched(s.disk, s.txn.blocks, sb.block_size, tp);
            let g = inode::group_of(sb, parent);
            &&& f is Ok
            &&& f->Ok_0.len() == sb.block_size
            &&& inode::live_inode(f->Ok_0.subrange(op, op + 128), parent) == Ok::<
                InodeView,
                InodeError,
            >(i)
            &&& !log.contains(tp)
            &&& !log.contains(volume::table_block(st.gdt, sb, num))
            &&& volume::used(s, sb, tp)
            &&& !volume::is_group_block(s.gdt, sb, tp)
            &&& volume::table_block(s.gdt, sb, parent) == tp
            &&& inode_write::apart(sb, s.gdt, parent, num)
            &&& s.disk.len() == st.disk.len()
            &&& s.disk.len() % 512 == 0
            &&& inode::inode_in_range(sb, parent)
            &&& 0 <= g < s.gdt.len()
            &&& s.gdt[g].inode_table + inode::index_of(sb, parent) / inode::inodes_per_block(sb)
                <= u64::MAX
            &&& inode::slot_byte(sb, s.gdt[g], parent) <= u64::MAX
        }),
{
    reveal(may_enter);
    let bs = sb.block_size;
    let ft = dir::dir_file_type::DIR;
    let bytes = dir_write::name_bytes(name);
    let tp = volume::table_block(st.gdt, sb, parent);
    let s = dir_write::added(st, sb, st.gdt, parent, name, num, ft).0;
    assert(s == dir_write::inserted(st, sb, st.gdt, parent, bytes, num, ft).0);
    volume::lemma_slot_read(st, sb, parent);
    lemma_still_fresh(st, sb, parent, d, name, num, now, log);
    pins::law_added_whole(st, sb, parent, name, num, ft);
    let _ = dirs::lemma_entered_sound(st, sb, parent, d, bytes, num, ft, log);
    dirs::lemma_entered_frame(st, sb, parent, d, bytes, num, ft);
    block_device::lemma_block_at(st.disk, bs, tp);
    renames::lemma_txn_inode(s, sb, st.gdt, parent);
    let gp = inode::group_of(sb, parent);
    assert(st.gdt[gp].inode_table == s.gdt[gp].inode_table);
    trim::lemma_same_groups(st, s, sb, tp);
    assert(volume::used(s, sb, tp));
    if log.contains(tp) {
        assert(append::bystander(st, sb, parent, d, tp));
    }
    inode::inode_in_txn(s.disk, sb, st.gdt, s.txn.blocks, parent)->Ok_0
}

/// What is on the device once a new directory was made in all and committed.
#[verifier::rlimit(100)]
proof fn lemma_committed(
    v: VolState,
    st: FsState,
    sb: Superblock,
    parent: u32,
    d: nat,
    name: Seq<char>,
    num: u32,
    now: u32,
    u: InodeUpdate,
    log: Seq<u64>,
)
    requires
        v.w.bs == sb.block_size,
        log == v.w.blocks,
        may_enter(st, sb, parent, d, name, num, now, log),
        ({
            let s = dir_write::added(
                st,
                sb,
                st.gdt,
                parent,
                name,
                num,
                dir::dir_file_type::DIR,
            ).0;
            let (s6, r6) = fsp_impl::touched(
                with_own_entries(s, sb, parent, num),
                sb,
                parent,
                u,
            );
            &&& r6 is Ok
            &&& fsp_impl::ended(fs_context::after(v, s6), s6.txn).1 is Ok
        }),
    ensures
        ({
            let bs = sb.block_size;
            let t = volume::table_block(st.gdt, sb, num);
            let tp = volume::table_block(st.gdt, sb, parent);
            let o = inode::slot_offset(sb, num);
            let op = inode::slot_offset(sb, parent);
            let s = dir_write::added(
                st,
                sb,
                st.gdt,
                parent,
                name,
                num,
                dir::dir_file_type::DIR,
            ).0;
            let s5 = with_own_entries(s, sb, parent, num);
            let s6 = fsp_impl::touched(s5, sb, parent, u).0;
            let v2 = fsp_impl::ended(fs_context::after(v, s6), s6.txn).0;
            let f = fs_state::fetched(s5.disk, s5.txn.blocks, bs, t)->Ok_0;
            let fp = fs_state::fetched(s.disk, s.txn.blocks, bs, tp)->Ok_0;
            let was = inode::live_inode(fp.subrange(op, op + 128), parent);
            let sx = entered(st, sb, parent, name, num);
            &&& tp == t || append::foreign(sx, sb, num, 0, tp)
            &&& was is Ok
            &&& v2.disk.len() == st.disk.len()
            &&& inode::inode_at(v2.disk, sb, v2.gdt, parent) == Ok::<InodeView, InodeError>(
                inode_write::updated_inode(was->Ok_0, u),
            )
            &&& inode::inode_at(v2.disk, sb, v2.gdt, num) == inode::live_inode(
                f.subrange(o, o + 128),
                num,
            )
            &&& forall|i: int|
                0 <= i < s.txn.blocks.len() ==> block_device::block_at(
                    s.disk,
                    bs,
                    (#[trigger] s.txn.blocks[i]).0,
                ) is Ok
            &&& forall|b: u64| #![trigger block_device::block_at(v2.disk, bs, b)]
                b != tp && !log.contains(b) ==> block_device::block_at(v2.disk, bs, b)
                    == fs_state::fetched(s5.disk, s5.txn.blocks, bs, b)
            &&& forall|b: u64| #![trigger block_device::block_at(v2.disk, bs, b)]
                volume::used(s, sb, b) && !volume::is_group_block(s.gdt, sb, b) && !log.contains(b)
                    && b != tp && b != t ==> block_device::block_at(v2.disk, bs, b)
                    == fs_state::fetched(s.disk, s.txn.blocks, bs, b)
        }),
{
    let bs = sb.block_size;
    let ft = dir::dir_file_type::DIR;
    let t = volume::table_block(st.gdt, sb, num);
    let tp = volume::table_block(st.gdt, sb, parent);
    let s = dir_write::added(st, sb, st.gdt, parent, name, num, ft).0;
    let sx = entered(st, sb, parent, name, num);
    let s5 = with_own_entries(s, sb, parent, num);
    let (s6, r6) = fsp_impl::touched(s5, sb, parent, u);
    let v2 = fsp_impl::ended(fs_context::after(v, s6), s6.txn).0;
    lemma_still_fresh(st, sb, parent, d, name, num, now, log);
    lemma_placed_sound(s, sb, num, now);
    lemma_ready(st, sb, parent, d, name, num, now, log);
    let was = lemma_parent_slot(st, sb, parent, d, name, num, now, log);
    assert(append::foreign(sx, sb, num, 0, tp) || tp == t);
    assert(fs_state::fetched(sx.disk, sx.txn.blocks, bs, tp) == fs_state::fetched(
        s.disk,
        s.txn.blocks,
        bs,
        tp,
    ));
    lemma_linked_up(v, sx, sb, parent, num, was, u, log);
    let _ = lemma_own_frame(sx, sb, parent, num, log);
    lemma_pins_there(v, s, sb, parent, num, now, u);
    assert forall|b: u64| #![trigger block_device::block_at(v2.disk, bs, b)]
        volume::used(s, sb, b) && !volume::is_group_block(s.gdt, sb, b) && !log.contains(b) && b
            != tp && b != t implies block_device::block_at(v2.disk, bs, b) == fs_state::fetched(
        s.disk,
        s.txn.blocks,
        bs,
        b,
    ) by {
        assert(append::foreign(sx, sb, num, 0, b));
        assert(volume::untouched(sx, s5, bs, b));
        assert(fs_state::fetched(sx.disk, sx.txn.blocks, bs, b) == fs_state::fetched(
            s.disk,
            s.txn.blocks,
            bs,
            b,
        ));
    }
}

/// What was pinned before a new directory got its own entries is on the device, if
/// the transaction could be committed.
proof fn lemma_pins_there(
    v: VolState,
    s: FsState,
    sb: Superblock,
    parent: u32,
    num: u32,
    now: u32,
    u: InodeUpdate,
)
    requires
        v.w.bs == sb.block_size,
        settle::fresh_in_both(s, sb, num, now),
        ({
            let ft = dir::dir_file_type::DIR;
            let (s1, r1) = dir_write::added(s, sb, s.gdt, num, "."@, num, ft);
            let s5 = with_own_entries(s, sb, parent, num);
            let (s6, r6) = fsp_impl::touched(s5, sb, parent, u);
            &&& r1 is Ok
            &&& pins::whole(s5, sb)
            &&& s5.disk.len() == s.disk.len()
            &&& settle::still_pinned(s1, s5)
            &&& r6 is Ok
            &&& fsp_impl::ended(fs_context::after(v, s6), s6.txn).1 is Ok
        }),
    ensures
        forall|i: int|
            0 <= i < s.txn.blocks.len() ==> block_device::block_at(
                s.disk,
                sb.block_size,
                (#[trigger] s.txn.blocks[i]).0,
            ) is Ok,
{
    let bs = sb.block_size;
    let ft = dir::dir_file_type::DIR;
    let s1 = dir_write::added(s, sb, s.gdt, num, "."@, num, ft).0;
    let s5 = with_own_entries(s, sb, parent, num);
    let s6 = fsp_impl::touched(s5, sb, parent, u).0;
    settle::lemma_first_pins(s, sb, num, now, "."@, num, ft);
    pins::lemma_updated(s5, sb, parent, u);
    renames::lemma_pins_readable(v, s6, sb);
    let tp = inode::slot_block(sb, s5.gdt[inode::group_of(sb, parent)], parent);
    let op = inode::slot_offset(sb, parent);
    let y = fs_state::fetched(s5.disk, s5.txn.blocks, bs, tp)->Ok_0;
    let z = bytes::put(y, op, inode_write::updated_record(y.subrange(op, op + 128), u));
    renames::lemma_still_pinned(s5.txn.blocks, tp, z);
    assert(s6.txn.blocks == writer::pin(s5.txn.blocks, tp, z));
    assert forall|i: int| 0 <= i < s.txn.blocks.len() implies block_device::block_at(
        s.disk,
        bs,
        (#[trigger] s.txn.blocks[i]).0,
    ) is Ok by {
        assert(s1.txn.blocks[i].0 == s.txn.blocks[i].0);
        assert(s5.txn.blocks[i].0 == s1.txn.blocks[i].0);
        assert(s6.txn.blocks[i].0 == s5.txn.blocks[i].0);
        volume::lemma_readable(s.disk, s6.disk, bs, s.txn.blocks[i].0);
    }
}

/// A request that made a directory made its inode first, and that left all of the
/// parent as it was.
#[verifier::rlimit(100)]
proof fn lemma_may_enter(
    v: VolState,
    sb: Superblock,
    file_name: Seq<char>,
    parent_path: Seq<char>,
    parent: u32,
    d: nat,
    name: Seq<char>,
    seconds: Option<u64>,
)
    requires
        create::parted(fsp_impl::volume_path(file_name)) == Some((parent_path, name)),
        fs_context::resolved(v.disk, sb, v.gdt, parent_path) is Ok,
        fs_context::resolved(v.disk, sb, v.gdt, parent_path)->Ok_0 == parent,
        names::may_grow(requests::at_rest(v), sb, parent, d),
        append::clear_of(requests::at_rest(v), sb, parent, d, v.w.blocks),
        v.w.bs == sb.block_size,
        names::maps_foreign(requests::at_rest(v), sb, parent, d),
        create::created(v, sb, false, file_name, true, seconds).1 is Ok,
        names::record_apart(
            requests::at_rest(v),
            sb,
            parent,
            d,
            create::created(v, sb, false, file_name, true, seconds).1->Ok_0.0,
        ),
        !v.w.blocks.contains(
            volume::table_block(
                v.gdt,
                sb,
                create::created(v, sb, false, file_name, true, seconds).1->Ok_0.0,
            ),
        ),
    ensures
        ({
            let st = requests::at_rest(v);
            let i = volume::inode_now(st, sb, parent);
            let now = clock::stamp(seconds);
            let (s1, r1) = inode_alloc::allocated(st, sb, true, inode::group_of(sb, parent));
            let num = r1->Ok_0;
            let s2 = inode_alloc::initialised(s1, sb, num, create::DIR_MODE, 0, 0, now).0;
            &&& may_enter(s2, sb, parent, d, name, num, now, v.w.blocks)
            &&& volume::inode_now(s2, sb, parent) == i
            &&& dir::dir_entries(s2.disk, sb, i) == dir::dir_entries(v.disk, sb, i)
            &&& s2.disk.len() == v.disk.len()
        }),
{
    reveal(may_enter);
    let bs = sb.block_size;
    let st = requests::at_rest(v);
    let log = v.w.blocks;
    let now = clock::stamp(seconds);
    requests::lemma_at_rest(v, sb, parent);
    assert forall|c: u64| #[trigger] volume::agrees(st, bs, c) by {
        reveal(volume::agrees);
    }
    let (s1, r1) = inode_alloc::allocated(st, sb, true, inode::group_of(sb, parent));
    let num = r1->Ok_0;
    volume::lemma_slot_read(st, sb, parent);
    names::lemma_inode_made(
        st,
        sb,
        true,
        inode::group_of(sb, parent),
        parent,
        d,
        create::DIR_MODE,
        now,
    );
    let s2 = inode_alloc::initialised(s1, sb, num, create::DIR_MODE, 0, 0, now).0;
    let t = volume::table_block(st.gdt, sb, num);
    let tp = volume::table_block(st.gdt, sb, parent);
    names::lemma_still_ready(st, s2, sb, parent, d, log, t);
    names::lemma_same_listing(st, s2, sb, parent, d, log, t);
    volume::lemma_slot_read(st, sb, parent);
    let gp = inode::group_of(sb, parent);
    let gn = inode::group_of(sb, num);
    assert(st.gdt[gp].inode_table == s2.gdt[gp].inode_table);
    assert(gn < st.gdt.len());
    vstd::arithmetic::div_mod::lemma_div_pos_is_pos(num - 1, sb.inodes_per_group as int);
    assert(st.gdt[gn].inode_table == s2.gdt[gn].inode_table);
    if t != tp {
        assert(append::bystander(st, sb, parent, d, t));
        assert(append::bystander(s2, sb, parent, d, t));
        assert(append::foreign(s2, sb, parent, d, t));
    }
}

/// What a new directory and its parent list once all is committed. Gives where the
/// parent lists the new one, and where that lists its parent.
#[verifier::rlimit(100)]
proof fn lemma_made(
    v: VolState,
    st: FsState,
    sb: Superblock,
    parent: u32,
    d: nat,
    name: Seq<char>,
    num: u32,
    now: u32,
    u: InodeUpdate,
    was: InodeView,
    e: Seq<EntryView>,
) -> (r: (int, int))
    requires
        v.w.bs == sb.block_size,
        may_enter(st, sb, parent, d, name, num, now, v.w.blocks),
        was == volume::inode_now(st, sb, parent),
        dir::dir_entries(st.disk, sb, was) == Ok::<Seq<EntryView>, DirError>(e),
        dir::first_named(e, name) is None,
        u.size is None,
        u.mode is None,
        u.flags is None,
        ({
            let s3 = dir_write::added(
                st,
                sb,
                st.gdt,
                parent,
                name,
                num,
                dir::dir_file_type::DIR,
            ).0;
            let (s6, r6) = fsp_impl::touched(
                with_own_entries(s3, sb, parent, num),
                sb,
                parent,
                u,
            );
            &&& r6 is Ok
            &&& fsp_impl::ended(fs_context::after(v, s6), s6.txn).1 is Ok
        }),
    ensures
        ({
            let (k, m) = r;
            let s3 = dir_write::added(
                st,
                sb,
                st.gdt,
                parent,
                name,
                num,
                dir::dir_file_type::DIR,
            ).0;
            let s6 = fsp_impl::touched(
                with_own_entries(s3, sb, parent, num),
                sb,
                parent,
                u,
            ).0;
            let v2 = fsp_impl::ended(fs_context::after(v, s6), s6.txn).0;
            let p = inode::inode_at(v2.disk, sb, v2.gdt, parent);
            let i = inode::inode_at(v2.disk, sb, v2.gdt, num);
            let e2 = e.insert(
                k,
                EntryView { inode_num: num, name, file_type: dir::dir_file_type::DIR },
            );
            &&& 0 <= k <= e.len()
            &&& p is Ok
            &&& u.links_count is Some ==> p->Ok_0.links_count == u.links_count->Some_0
            &&& dir::dir_entries(v2.disk, sb, p->Ok_0) == Ok::<Seq<EntryView>, DirError>(e2)
            &&& dir::first_named(e2, name) == Some(num)
            &&& forall|other: Seq<char>|
                other != name ==> #[trigger] dir::first_named(e2, other) == dir::first_named(
                    e,
                    other,
                )
            &&& i is Ok
            &&& 0 <= m <= 1
            &&& dir::dir_entries(v2.disk, sb, i->Ok_0) == Ok::<Seq<EntryView>, DirError>(
                own_entries(num, parent, m),
            )
            &&& dir::first_named(own_entries(num, parent, m), "."@) == Some(num)
            &&& dir::first_named(own_entries(num, parent, m), ".."@) == Some(parent)
        }),
{
    let bs = sb.block_size;
    let ft = dir::dir_file_type::DIR;
    let log = v.w.blocks;
    let t = volume::table_block(st.gdt, sb, num);
    let tp = volume::table_block(st.gdt, sb, parent);
    let s3 = dir_write::added(st, sb, st.gdt, parent, name, num, ft).0;
    let sx = entered(st, sb, parent, name, num);
    let s5 = with_own_entries(s3, sb, parent, num);
    let s6 = fsp_impl::touched(s5, sb, parent, u).0;
    let v2 = fsp_impl::ended(fs_context::after(v, s6), s6.txn).0;
    lemma_ready(st, sb, parent, d, name, num, now, log);
    lemma_still_fresh(st, sb, parent, d, name, num, now, log);
    lemma_committed(v, st, sb, parent, d, name, num, now, u, log);
    let k = lemma_parent_lists(st, sb, parent, d, name, num, now, log, v2.disk);
    let m = law_own_entries(sx, sb, parent, num, log, tp, v2.disk);
    let op = inode::slot_offset(sb, parent);
    let f = fs_state::fetched(s3.disk, s3.txn.blocks, bs, tp)->Ok_0;
    let j = inode::live_inode(f.subrange(op, op + 128), parent)->Ok_0;
    let q = inode::inode_at(v2.disk, sb, v2.gdt, parent)->Ok_0;
    names::lemma_entries_of(v2.disk, sb, j, q, 0, dir::dir_blocks(sb, j));
    let y = EntryView { inode_num: num, name, file_type: ft };
    dirs::law_listed_is_found(e, k, y, name);
    assert forall|other: Seq<char>| other != name implies #[trigger] dir::first_named(
        e.insert(k, y),
        other,
    ) == dir::first_named(e, other) by {
        dirs::law_listed_is_found(e, k, y, other);
    }
    lemma_own_found(num, parent, m);
    (k, m)
}

/// A directory that was made is listed in its parent, at the first place that this
/// gives, and nothing else changes there: its name is found, with the number that
/// the request was answered with, and every other name is found as before. It
/// lists itself and its parent, which has a link more.
#[verifier::rlimit(100)]
pub proof fn law_made_is_found(
    v: VolState,
    sb: Superblock,
    file_name: Seq<char>,
    parent_path: Seq<char>,
    parent: u32,
    d: nat,
    name: Seq<char>,
    seconds: Option<u64>,
) -> (r: (int, int))
    requires
        create::parted(fsp_impl::volume_path(file_name)) == Some((parent_path, name)),
        fs_context::resolved(v.disk, sb, v.gdt, parent_path) is Ok,
        fs_context::resolved(v.disk, sb, v.gdt, parent_path)->Ok_0 == parent,
        names::may_grow(requests::at_rest(v), sb, parent, d),
        append::clear_of(requests::at_rest(v), sb, parent, d, v.w.blocks),
        v.w.bs == sb.block_size,
        names::maps_foreign(requests::at_rest(v), sb, parent, d),
        create::created(v, sb, false, file_name, true, seconds).1 is Ok,
        names::record_apart(
            requests::at_rest(v),
            sb,
            parent,
            d,
            create::created(v, sb, false, file_name, true, seconds).1->Ok_0.0,
        ),
        !v.w.blocks.contains(
            volume::table_block(
                v.gdt,
                sb,
                create::created(v, sb, false, file_name, true, seconds).1->Ok_0.0,
            ),
        ),
    ensures
        ({
            let (k, m) = r;
            let was = volume::inode_now(requests::at_rest(v), sb, parent);
            let e = dir::dir_entries(v.disk, sb, was)->Ok_0;
            let (v2, made) = create::created(v, sb, false, file_name, true, seconds);
            let (num, i) = made->Ok_0;
            let p = inode::inode_at(v2.disk, sb, v2.gdt, parent);
            let e2 = e.insert(
                k,
                EntryView { inode_num: num, name, file_type: dir::dir_file_type::DIR },
            );
            &&& 0 <= k <= e.len()
            &&& p is Ok
            &&& p->Ok_0.links_count == create::one_more(was.links_count)
            &&& dir::dir_entries(v2.disk, sb, p->Ok_0) == Ok::<Seq<EntryView>, DirError>(e2)
            &&& dir::first_named(e2, name) == Some(num)
            &&& forall|other: Seq<char>|
                other != name ==> #[trigger] dir::first_named(e2, other) == dir::first_named(
                    e,
                    other,
                )
            &&& inode::inode_at(v2.disk, sb, v2.gdt, num) == Ok::<InodeView, InodeError>(i)
            &&& 0 <= m <= 1
            &&& dir::dir_entries(v2.disk, sb, i) == Ok::<Seq<EntryView>, DirError>(
                own_entries(num, parent, m),
            )
            &&& dir::first_named(own_entries(num, parent, m), "."@) == Some(num)
            &&& dir::first_named(own_entries(num, parent, m), ".."@) == Some(parent)
        }),
{
    let st = requests::at_rest(v);
    let was = volume::inode_now(st, sb, parent);
    let e = dir::dir_entries(v.disk, sb, was)->Ok_0;
    let now = clock::stamp(seconds);
    let (s1, r1) = inode_alloc::allocated(st, sb, true, inode::group_of(sb, parent));
    let num = r1->Ok_0;
    let s2 = inode_alloc::initialised(s1, sb, num, create::DIR_MODE, 0, 0, now).0;
    lemma_may_enter(v, sb, file_name, parent_path, parent, d, name, seconds);
    let u = fsp_impl::relink(create::one_more(was.links_count), seconds);
    lemma_made(v, s2, sb, parent, d, name, num, now, u, was, e)
}

/// Both entries of a new directory are found.
proof fn lemma_own_found(num: u32, parent: u32, k: int)
    requires
        0 <= k <= 1,
    ensures
        dir::first_named(own_entries(num, parent, k), "."@) == Some(num),
        dir::first_named(own_entries(num, parent, k), ".."@) == Some(parent),
{
    let e = own_entries(num, parent, k);
    lemma_dots();
    reveal_with_fuel(dir::first_named, 3);
    assert(e.len() == 2);
    assert(e.skip(1)[0] == e[1]);
}

} // verus!
