//! That a file grows where the volume has room for it.
use vstd::prelude::*;
use super::data;
use super::insert;
use super::nodes;
use super::requests;
use super::rooms;
use super::success;
use super::takes;
use super::tree;
use super::volume;
use crate::allocator::block_alloc;
use crate::block_device;
use crate::bytes;
use crate::extent;
use crate::extent_insert;
use crate::file_write;
use crate::fs_context::VolState;
use crate::fs_state::FsState;
use crate::fsp_impl::write_file;
use crate::superblock::Superblock;

verus! {

/// Blocks that are on the device can be zeroed.
proof fn lemma_zeroed(st: FsState, sb: Superblock, p: u64, got: int, n: int)
    requires
        takes::able(st, sb, n),
        got > 0,
        p + got <= volume::BLOCK_END,
        forall|b: u64|
            p <= b < p + got ==> block_device::block_at(
                st.disk,
                sb.block_size,
                b,
            ) is Ok && !#[trigger] volume::is_group_block(st.gdt, sb, b),
    ensures
        ({
            let at = p * (sb.block_size as int / 512);
            let zeros = bytes::zeros(got * sb.block_size);
            let s = FsState { disk: block_device::written(st.disk, at, zeros), ..st };
            &&& block_device::write_result(st.disk, at, zeros) is Ok
            &&& s.disk.len() == st.disk.len()
            &&& volume::later(st, s, sb)
            &&& volume::sound_volume(s, sb) ==> takes::able(s, sb, n)
        }),
{
    let bs = sb.block_size;
    let at = p * (bs as int / 512);
    let zeros = bytes::zeros(got * bs);
    let last = (p + got - 1) as u64;
    assert(!volume::is_group_block(st.gdt, sb, last));
    block_device::lemma_block_at(st.disk, bs, last);
    block_device::lemma_block_at(st.disk, bs, p);
    assert(p * bs + got * bs == last * bs + bs && got * bs >= 0) by (nonlinear_arith)
        requires
            last == p + got - 1,
            got > 0,
    ;
    let s = FsState { disk: block_device::written(st.disk, at, zeros), ..st };
    volume::lemma_zeroed(st.disk, bs, p, got, p);
    assert forall|c: u64|
        !(p <= c < p + got) implies #[trigger] block_device::block_at(s.disk, bs, c)
        == block_device::block_at(st.disk, bs, c) by {
        volume::lemma_zeroed(st.disk, bs, p, got, c);
    }
    data::lemma_same_bitmaps(st, s, sb, p, got);
    if volume::sound_volume(s, sb) {
        assert forall|c: u64| #[trigger]
            volume::is_group_block(st.gdt, sb, c) implies block_device::block_at(s.disk, bs, c)
            == block_device::block_at(st.disk, bs, c) by {
            assert(!(p <= c < p + got));
        }
        rooms::lemma_gives_still(st, s, sb, n);
        assert forall|i: int| 0 <= i < s.txn.blocks.len() implies block_device::block_at(
            s.disk,
            bs,
            (#[trigger] s.txn.blocks[i]).0,
        ) is Ok by {
            success::lemma_on(st.disk, s.disk, bs, st.txn.blocks[i].0);
        }
    }
}

/// A sound file is given blocks behind all that it maps, where the volume has as many in a
/// row, and others for the nodes of the tree.
#[verifier::rlimit(60)]
proof fn lemma_filled(
    st: FsState,
    sb: Superblock,
    num: u32,
    d: nat,
    hint: u64,
    l: int,
    n: int,
    g: int,
)
    requires
        volume::sound_file(st, sb, num, d),
        takes::able(st, sb, n + d + 3),
        0 < n <= file_write::EXTENT_BATCH_MAX,
        0 <= l,
        l + n <= tree::LOGICAL_END,
        tree::end_of(volume::extents_now(st, sb, num)) <= l,
        takes::can_grow(st, sb, num, d),
        rooms::has_run(st, sb, g, n),
    ensures
        ({
            let (s, r) = file_write::filled(st, sb, num, hint, l, n);
            &&& r is Ok
            &&& success::settled(s, sb)
        }),
{
    let bs = sb.block_size;
    let m = n + d + 3;
    let want = n as u32;
    rooms::law_allocation_succeeds(st, sb, want, hint, g);
    rooms::law_given(st, sb, want, hint, m);
    takes::lemma_allocated_settled(st, sb, want, hint, 0);
    let (s1, r1) = block_alloc::allocated(st, sb, want, hint);
    let p = r1->Ok_0;
    volume::lemma_volume_kept(st, s1, sb);
    assert forall|b: u64| p <= b < p + n implies block_device::block_at(s1.disk, bs, b) is Ok
        && !#[trigger] volume::is_group_block(s1.gdt, sb, b) by {
        assert(!volume::is_group_block(st.gdt, sb, b));
    }
    lemma_zeroed(s1, sb, p, n, m - n);
    let s2 = data::lemma_zeroed_ready(st, sb, num, d, hint, want);
    takes::law_insertion_succeeds(s2, sb, num, d, l, p, want as u16, m - n);
    let s3 = extent_insert::inserted(s2, sb, num, l, p, want as u16).0;
    assert(file_write::shrinking(st, sb, want, hint) == (
        s1,
        Ok::<(u64, u32), file_write::FileWriteError>((p, want)),
    ));
    assert(file_write::filled(s3, sb, num, hint, l + n, 0) == (
        s3,
        Ok::<Seq<u64>, file_write::FileWriteError>(Seq::empty()),
    ));
}

/// Blocks are given, as many as are wanted or fewer, where the volume has any to give.
pub proof fn law_some_given(st: FsState, sb: Superblock, want: u32, hint: u64)
    requires
        volume::sound_volume(st, sb),
        rooms::room(st, sb) > 0,
        want > 0,
    ensures
        ({
            let (s, r) = file_write::shrinking(st, sb, want, hint);
            &&& r is Ok
            &&& 0 < r->Ok_0.1 <= want
            &&& block_alloc::allocated(st, sb, r->Ok_0.1, hint) == (
                s,
                Ok::<u64, crate::allocator::AllocError>(r->Ok_0.0),
            )
        }),
    decreases want,
{
    volume::lemma_allocated(st, sb, want, hint);
    let r1 = block_alloc::allocated(st, sb, want, hint).1;
    if r1 is Err {
        if want <= 1 {
            rooms::law_block_given(st, sb, hint);
        } else {
            law_some_given(st, sb, want / 2, hint);
        }
    }
}

/// A file that maps a block has an entry in its root.
proof fn lemma_has_entries(st: FsState, sb: Superblock, num: u32, d: nat)
    requires
        volume::sound_file(st, sb, num, d),
        tree::end_of(volume::extents_now(st, sb, num)) > 0,
        d < extent::MAX_DEPTH,
    ensures
        takes::can_grow(st, sb, num, d),
{
    volume::lemma_extents(st, sb, num, d);
    let root = volume::inode_now(st, sb, num).block_data;
    if extent::header(root).eh_entries == 0 {
        assert(d == 0);
        assert(volume::extents_now(st, sb, num) == extent::node_leaves(root));
        assert(extent::node_leaves(root).len() == 0);
    }
}

/// A sound file is given blocks behind all that it maps, one by one if need be, where its tree
/// can grow as often, and the volume has nine blocks to give for each.
#[verifier::rlimit(60)]
proof fn lemma_filled_apart(
    st: FsState,
    sb: Superblock,
    num: u32,
    d: nat,
    hint: u64,
    l: int,
    n: int,
)
    requires
        volume::sound_file(st, sb, num, d),
        takes::able(st, sb, 9 * n),
        0 <= n,
        d + n <= extent::MAX_DEPTH,
        0 <= l,
        l + n <= tree::LOGICAL_END,
        tree::end_of(volume::extents_now(st, sb, num)) <= l,
        n > 0 ==> takes::can_grow(st, sb, num, d),
    ensures
        ({
            let (s, r) = file_write::filled(st, sb, num, hint, l, n);
            &&& r is Ok
            &&& success::settled(s, sb)
        }),
    decreases n,
{
    if n > 0 {
        let bs = sb.block_size;
        let m = 9 * n;
        law_some_given(st, sb, n as u32, hint);
        let (s1, r1) = file_write::shrinking(st, sb, n as u32, hint);
        let (p, got) = r1->Ok_0;
        rooms::law_given(st, sb, got, hint, m);
        takes::lemma_allocated_settled(st, sb, got, hint, 0);
        volume::lemma_volume_kept(st, s1, sb);
        assert forall|b: u64| p <= b < p + got implies block_device::block_at(
            s1.disk,
            bs,
            b,
        ) is Ok && !#[trigger] volume::is_group_block(s1.gdt, sb, b) by {
            assert(!volume::is_group_block(st.gdt, sb, b));
        }
        lemma_zeroed(s1, sb, p, got as int, m - got);
        let s2 = data::lemma_zeroed_ready(st, sb, num, d, hint, got);
        takes::law_insertion_succeeds(s2, sb, num, d, l, p, got as u16, m - got);
        let s3 = extent_insert::inserted(s2, sb, num, l, p, got as u16).0;
        let d3 = insert::law_inserted(s2, sb, num, d, l, p, got as u16);
        if n - got > 0 {
            lemma_has_entries(s3, sb, num, d3);
        }
        lemma_filled_apart(s3, sb, num, d3, hint, l + got, n - got);
    }
}

/// A run of blocks that are all behind the end of a file reaches as far as is asked for.
proof fn lemma_run(
    st: FsState,
    sb: Superblock,
    num: u32,
    d: nat,
    start: int,
    e: int,
    last: int,
)
    requires
        volume::sound_file(st, sb, num, d),
        0 <= start < e <= last + 1,
        last < tree::LOGICAL_END,
        last + 1 - start <= file_write::EXTENT_BATCH_MAX,
        tree::end_of(volume::extents_now(st, sb, num)) <= start,
    ensures
        file_write::run_end(st.disk, sb, volume::inode_now(st, sb, num), start, e, last) == Ok::<
            int,
            extent::ExtentError,
        >(last + 1),
    decreases last + 1 - e,
{
    if e <= last {
        data::lemma_found(st, sb, num, d, e as u64);
        volume::lemma_slot_read(st, sb, num);
        volume::lemma_extents(st, sb, num, d);
        nodes::lemma_past_end(
            volume::extents_now(st, sb, num),
            0,
            tree::LOGICAL_END as int,
            e as u64,
        );
        lemma_run(st, sb, num, d, start, e + 1, last);
    }
}

/// Whether a file has each of the logical blocks from `l` to `last` that lie in front of its
/// end, on the device.
pub open spec fn unbroken(st: FsState, sb: Superblock, num: u32, l: int, last: int) -> bool {
    let v = volume::extents_now(st, sb, num);
    forall|m: u64|
        l <= m <= last && m < tree::end_of(v) ==> (#[trigger] extent::mapped(v, m)) is Some
            && block_device::block_at(
            st.disk,
            sb.block_size,
            extent::mapped(v, m)->Some_0,
        ) is Ok
}

/// How many of the logical blocks from `l` to `last` lie behind the end of a file.
pub open spec fn added(st: FsState, sb: Superblock, num: u32, l: int, last: int) -> int {
    let e = tree::end_of(volume::extents_now(st, sb, num));
    if last < e {
        0
    } else {
        last + 1 - block_device::max(l, e)
    }
}

/// Whether the volume has room for `n` more blocks of a file whose tree is `d` levels deep:
/// every free block is on the device, and the tree takes one more extent. Either some group
/// has that many free blocks in a row, and there are others for a node on each level and
/// two more; or the tree could grow for each of the blocks, and there are nine for each,
/// wherever they lie.
pub open spec fn has_room(st: FsState, sb: Superblock, num: u32, d: nat, n: int) -> bool {
    &&& n <= file_write::EXTENT_BATCH_MAX
    &&& takes::can_grow(st, sb, num, d)
    &&& rooms::gives(st, sb, n + d + 3) && (exists|g: int| #[trigger]
        rooms::has_run(st, sb, g, n)) || rooms::gives(st, sb, 9 * n) && d + n
        <= extent::MAX_DEPTH
}

/// Each block of a stretch finds a place, in a file without holes there on a volume that has
/// room for those behind its end.
#[verifier::rlimit(60)]
proof fn lemma_provisioned(
    st: FsState,
    sb: Superblock,
    num: u32,
    d: nat,
    l: int,
    last: int,
)
    requires
        volume::sound_file(st, sb, num, d),
        success::settled(st, sb),
        0 <= l <= last + 1,
        last < tree::LOGICAL_END,
        unbroken(st, sb, num, l, last),
        added(st, sb, num, l, last) > 0 ==> has_room(
            st,
            sb,
            num,
            d,
            added(st, sb, num, l, last),
        ),
    ensures
        ({
            let (s, r) = file_write::provisioned(
                st,
                sb,
                num,
                volume::inode_now(st, sb, num),
                l,
                last,
            );
            &&& r is Ok
            &&& success::settled(s, sb)
        }),
    decreases last + 1 - l,
{
    let v = volume::extents_now(st, sb, num);
    let i = volume::inode_now(st, sb, num);
    let e = tree::end_of(v);
    if l <= last {
        data::lemma_found(st, sb, num, d, l as u64);
        volume::lemma_slot_read(st, sb, num);
        volume::lemma_extents(st, sb, num, d);
        if l < e {
            assert(extent::mapped(v, l as u64) is Some);
            assert(unbroken(st, sb, num, l + 1, last));
            lemma_provisioned(st, sb, num, d, l + 1, last);
        } else {
            nodes::lemma_past_end(v, 0, tree::LOGICAL_END as int, l as u64);
            let n = last + 1 - l;
            assert(n == added(st, sb, num, l, last));
            lemma_run(st, sb, num, d, l, l + 1, last);
            let hint = block_device::max(i.size as int / sb.block_size as int, l) as u64;
            if rooms::gives(st, sb, n + d + 3) && exists|g: int| #[trigger]
                rooms::has_run(st, sb, g, n) {
                let g = choose|g: int| #[trigger] rooms::has_run(st, sb, g, n);
                lemma_filled(st, sb, num, d, hint, l, n, g);
            } else {
                lemma_filled_apart(st, sb, num, d, hint, l, n);
            }
            assert forall|m: u64| l <= m < l + n implies (#[trigger] extent::mapped(
                v,
                m,
            )) is None by {
                nodes::lemma_past_end(v, 0, tree::LOGICAL_END as int, m);
            }
            let d1 = data::law_filled(st, sb, num, d, hint, l, n);
            let s1 = file_write::filled(st, sb, num, hint, l, n).0;
            volume::lemma_slot_read(s1, sb, num);
            let i2 = volume::inode_now(s1, sb, num);
            assert(file_write::provisioned(s1, sb, num, i2, last + 1, last) == (
                s1,
                Ok::<Seq<u64>, file_write::FileWriteError>(Seq::empty()),
            ));
        }
    }
}

/// A write request on a sound file is carried out, and answered with how many bytes it wrote:
/// all of them. It may write over the file, reach past its end, or start there; how far, is
/// limited by the logical blocks that a tree can map alone. The file may have no hole where
/// it writes, the volume has to have room for the blocks that are added, and for the nodes of
/// the tree, and the request has to fit the journal.
#[verifier::rlimit(60)]
pub proof fn law_write_succeeds(
    v: VolState,
    sb: Superblock,
    num: u32,
    d: nat,
    data: Seq<u8>,
    offset: u64,
    to_eof: bool,
    constrained: bool,
    seconds: Option<u64>,
)
    requires
        0 < data.len() <= u32::MAX,
        ({
            let st = requests::at_rest(v);
            let i = volume::inode_now(st, sb, num);
            let at = requests::write_start(i, offset, to_eof) as int;
            let l = at / (sb.block_size as int);
            let last = (at + data.len() - 1) / (sb.block_size as int);
            &&& requests::well_placed(v, sb, num, d, at, data.len() as int)
            &&& !constrained || at + data.len() <= i.size
            &&& success::fits_journal(v, sb, num, at, data, seconds)
            &&& unbroken(st, sb, num, l, last)
            &&& added(st, sb, num, l, last) > 0 ==> has_room(
                st,
                sb,
                num,
                d,
                added(st, sb, num, l, last),
            )
        }),
    ensures
        ({
            let r = write_file::written(
                v,
                sb,
                false,
                true,
                num,
                data,
                offset,
                to_eof,
                constrained,
                seconds,
            ).1;
            &&& r is Ok
            &&& r->Ok_0.0 == data.len()
        }),
{
    let st = requests::at_rest(v);
    let i = volume::inode_now(st, sb, num);
    let e = volume::extents_now(st, sb, num);
    let at = requests::write_start(i, offset, to_eof) as int;
    let bs = sb.block_size as int;
    let l = at / bs;
    let last = (at + data.len() - 1) / bs;
    success::lemma_last_block(sb, at, data.len() as int);
    requests::lemma_at_rest(v, sb, num);
    assert(success::settled(st, sb));
    lemma_provisioned(st, sb, num, d, l, last);
    let (s, r) = file_write::provisioned(st, sb, num, i, l, last);
    let map = r->Ok_0;
    let d2 = data::law_provisioned(st, sb, num, d, l, last);
    volume::lemma_extents(st, sb, num, d);
    assert forall|k: int| 0 <= k < map.len() implies block_device::block_at(
        s.disk,
        sb.block_size,
        #[trigger] map[k],
    ) is Ok by {
        let m = (l + k) as u64;
        if m < tree::end_of(e) {
            assert(extent::mapped(e, m) is Some);
            success::lemma_on(st.disk, s.disk, sb.block_size, map[k]);
        } else {
            nodes::lemma_past_end(e, 0, tree::LOGICAL_END as int, m);
        }
    }
    success::lemma_poured(s, sb, map, at, data, 0);
    success::lemma_carried_out(v, sb, num, d, data, offset, to_eof, constrained, seconds);
}

} // verus!
