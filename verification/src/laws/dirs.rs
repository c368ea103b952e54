//! What reading a directory gives back of adding and removing entries.
use vstd::prelude::*;
use super::append;
use super::data;
use super::tree;
use super::volume;
use crate::allocator::block_alloc;
use crate::block_device;
use crate::block_device::BlockDeviceError;
use crate::bytes;
use crate::dir;
use crate::dir::{DirError, EntryView};
use crate::dir_write;
use crate::dir_write::{DirWriteError, Query};
use crate::extent;
use crate::extent::ExtentError;
use crate::extent_write;
use crate::fs_state;
use crate::fs_state::FsState;
use crate::group_desc::GroupDesc;
use crate::inode;
use crate::inode::InodeView;
use crate::inode_write;
use crate::inode_write::InodeUpdate;
use crate::journal::writer;
use crate::superblock::Superblock;
use crate::text;

verus! {

/// Whether each live entry of a block has room for its name.
pub open spec fn names_fit(b: Seq<u8>, pos: int) -> bool
    decreases b.len() + 0x1_0000 - pos,
{
    pos + 8 > b.len() || dir::entry_len(b, pos) < 8 || ((dir::entry_inode(b, pos) != 0
        ==> dir::entry_name_len(b, pos) + 8 <= dir::entry_len(b, pos)) && names_fit(
        b,
        pos + dir::entry_len(b, pos),
    ))
}

/// The entries of a block depend on the bytes from `pos` on alone.
pub proof fn lemma_entries_same(a: Seq<u8>, b: Seq<u8>, pos: int)
    requires
        a.len() == b.len(),
        0 <= pos,
        forall|i: int| pos <= i < a.len() ==> a[i] == b[i],
    ensures
        dir::block_entries(a, pos) == dir::block_entries(b, pos),
    decreases a.len() + 0x1_0000 - pos,
{
    if pos + 8 <= a.len() {
        lemma_entry_same(a, b, pos);
        if dir::entry_len(a, pos) >= 8 {
            lemma_entries_same(a, b, pos + dir::entry_len(a, pos));
            if pos + dir::entry_len(a, pos) <= a.len() {
                let n = if dir::entry_name_len(a, pos) < dir::entry_len(a, pos) - 8 {
                    dir::entry_name_len(a, pos) as int
                } else {
                    dir::entry_len(a, pos) - 8
                };
                assert(a.subrange(pos + 8, pos + 8 + n) =~= b.subrange(pos + 8, pos + 8 + n));
            }
        }
    }
}

/// The header of an entry depends on its 8 bytes alone.
pub proof fn lemma_entry_same(a: Seq<u8>, b: Seq<u8>, pos: int)
    requires
        a.len() == b.len(),
        0 <= pos,
        pos + 8 <= a.len(),
        forall|i: int| pos <= i < pos + 8 ==> a[i] == b[i],
    ensures
        dir::entry_inode(a, pos) == dir::entry_inode(b, pos),
        dir::entry_len(a, pos) == dir::entry_len(b, pos),
        dir::entry_name_len(a, pos) == dir::entry_name_len(b, pos),
        dir::entry_type(a, pos) == dir::entry_type(b, pos),
{
    reveal(bytes::le16);
    reveal(bytes::le32);
}

/// An entry whose bytes are the same is the same.
pub proof fn lemma_entry_at_same(a: Seq<u8>, b: Seq<u8>, pos: int)
    requires
        a.len() == b.len(),
        0 <= pos,
        pos + 8 <= a.len(),
        dir::entry_len(a, pos) >= 8,
        pos + dir::entry_len(a, pos) <= a.len(),
        forall|i: int| pos <= i < pos + dir::entry_len(a, pos) ==> a[i] == b[i],
    ensures
        dir::entry_len(a, pos) == dir::entry_len(b, pos),
        dir::entry_at(a, pos) == dir::entry_at(b, pos),
{
    lemma_entry_same(a, b, pos);
    let n = if dir::entry_name_len(a, pos) < dir::entry_len(a, pos) - 8 {
        dir::entry_name_len(a, pos) as int
    } else {
        dir::entry_len(a, pos) - 8
    };
    assert(a.subrange(pos + 8, pos + 8 + n) =~= b.subrange(pos + 8, pos + 8 + n));
}

/// An entry that was written.
pub proof fn lemma_dirent(b: Seq<u8>, pos: int, num: u32, name: Seq<u8>, file_type: u8, len: u16)
    requires
        0 <= pos,
        name.len() <= 255,
        8 + name.len() <= len,
        pos + 8 + name.len() <= b.len(),
    ensures
        ({
            let c = dir_write::with_dirent(b, pos, num, name, file_type, len);
            &&& c.len() == b.len()
            &&& dir::entry_inode(c, pos) == num
            &&& dir::entry_len(c, pos) == len
            &&& dir::entry_name_len(c, pos) == name.len()
            &&& dir::entry_at(c, pos) == (EntryView {
                inode_num: num,
                name: text::text_of(name),
                file_type,
            })
            &&& forall|i: int|
                0 <= i < b.len() && !(pos <= i < pos + 8 + name.len()) ==> c[i] == b[i]
        }),
{
    broadcast use crate::bytes::group_codec;

    let d = dir_write::dirent_bytes(num, name, file_type, len);
    let c = dir_write::with_dirent(b, pos, num, name, file_type, len);
    assert(bytes::le32(d, 0) == num) by {
        assert(bytes::le32(bytes::put(bytes::zeros(4), 0, bytes::le32_bytes(num)), 0) == num);
        reveal(bytes::le32);
    }
    assert(bytes::le16(d, 4) == len) by {
        assert(bytes::le16(bytes::put(bytes::zeros(2), 0, bytes::le16_bytes(len)), 0) == len);
        reveal(bytes::le16);
    }
    bytes::lemma_le32_inside(b, pos, d, pos);
    bytes::lemma_le16_inside(b, pos, d, pos + 4);
    assert(c[pos + 6] == name.len() as u8);
    assert(c[pos + 7] == file_type);
    assert(c.subrange(pos + 8, pos + 8 + name.len()) =~= name);
}

/// A name that went into a block is listed there, in front of or behind the
/// entries that were there, which all stay. Gives its place.
pub proof fn law_inserted_in_block(
    b: Seq<u8>,
    pos: int,
    name: Seq<u8>,
    num: u32,
    file_type: u8,
) -> (k: int)
    requires
        0 <= pos,
        num != 0,
        name.len() <= 255,
        dir::block_entries(b, pos) is Ok,
        dir_write::inserted_at(b, pos, name, num, file_type) is Ok,
        dir_write::inserted_at(b, pos, name, num, file_type)->Ok_0 is Some,
    ensures
        ({
            let v = dir::block_entries(b, pos)->Ok_0;
            let c = dir_write::inserted_at(b, pos, name, num, file_type)->Ok_0->Some_0;
            &&& c.len() == b.len()
            &&& 0 <= k <= v.len()
            &&& dir::block_entries(c, pos) == Ok::<Seq<EntryView>, DirError>(
                v.insert(
                    k,
                    EntryView { inode_num: num, name: text::text_of(name), file_type },
                ),
            )
            &&& forall|i: int| 0 <= i < pos ==> c[i] == b[i]
        }),
    decreases b.len() - pos,
{
    let v = dir::block_entries(b, pos)->Ok_0;
    let c = dir_write::inserted_at(b, pos, name, num, file_type)->Ok_0->Some_0;
    let e = EntryView { inode_num: num, name: text::text_of(name), file_type };
    let len = dir::entry_len(b, pos);
    let reach = dir_write::reach(b, pos);
    let own = dir_write::min_len(dir::entry_name_len(b, pos) as int);
    if dir::entry_inode(b, pos) == 0 && len >= dir_write::min_len(name.len() as int) {
        lemma_dirent(b, pos, num, name, file_type, len);
        lemma_entries_same(c, b, pos + len);
        assert(v.insert(0, e) =~= seq![e] + v);
        0
    } else if dir::entry_inode(b, pos) != 0 && pos + reach >= b.len() && reach - own
        >= dir_write::min_len(name.len() as int) {
        let mid = bytes::put(b, pos + 4, bytes::le16_bytes(own as u16));
        lemma_shortened(b, pos, own as u16);
        lemma_dirent(mid, pos + own, num, name, file_type, (reach - own) as u16);
        lemma_entry_at_same(mid, c, pos);
        lemma_entry_same(mid, c, pos);
        assert(dir::block_entries(b, pos + len) == Ok::<Seq<EntryView>, DirError>(Seq::empty()));
        assert(dir::block_entries(c, pos + reach) == Ok::<Seq<EntryView>, DirError>(Seq::empty()));
        assert(dir::block_entries(c, pos + own) == Ok::<Seq<EntryView>, DirError>(
            seq![e] + Seq::<EntryView>::empty(),
        ));
        assert(v.insert(1, e) =~= seq![dir::entry_at(b, pos)] + (seq![e] + Seq::<
            EntryView,
        >::empty()));
        1
    } else {
        let k = law_inserted_in_block(b, pos + len, name, num, file_type);
        let rest = dir::block_entries(b, pos + len)->Ok_0;
        lemma_entry_same(b, c, pos);
        lemma_entry_at_same(b, c, pos);
        if dir::entry_inode(b, pos) == 0 {
            k
        } else {
            assert(v.insert(k + 1, e) =~= seq![dir::entry_at(b, pos)] + rest.insert(k, e));
            k + 1
        }
    }
}

/// An entry that was cut to what its name needs.
proof fn lemma_shortened(b: Seq<u8>, pos: int, own: u16)
    requires
        0 <= pos,
        pos + 8 <= b.len(),
        own == dir_write::min_len(dir::entry_name_len(b, pos) as int),
        own < dir::entry_len(b, pos),
        pos + dir::entry_len(b, pos) <= b.len(),
    ensures
        ({
            let c = bytes::put(b, pos + 4, bytes::le16_bytes(own));
            &&& c.len() == b.len()
            &&& dir::entry_len(c, pos) == own
            &&& dir::entry_at(c, pos) == dir::entry_at(b, pos)
            &&& dir::entry_inode(c, pos) == dir::entry_inode(b, pos)
            &&& forall|i: int| 0 <= i < b.len() && !(pos + 4 <= i < pos + 6) ==> c[i] == b[i]
        }),
{
    broadcast use crate::bytes::group_codec;

    let c = bytes::put(b, pos + 4, bytes::le16_bytes(own));
    let n = dir::entry_name_len(b, pos) as int;
    assert(c.subrange(pos + 8, pos + 8 + n) =~= b.subrange(pos + 8, pos + 8 + n));
}

/// Whether an entry of a name lies at `pos`, or behind it with deleted entries alone
/// in between.
pub open spec fn comes_next(b: Seq<u8>, pos: int, name: Seq<u8>) -> bool
    decreases b.len() + 0x1_0000 - pos,
{
    &&& pos + 8 <= b.len()
    &&& dir::entry_len(b, pos) >= 8
    &&& dir_write::is_named(b, pos, name) || (dir::entry_inode(b, pos) == 0 && comes_next(
        b,
        pos + dir::entry_len(b, pos),
        name,
    ))
}

/// An entry that was made longer.
proof fn lemma_longer_entry(b: Seq<u8>, pos: int, len: u16)
    requires
        0 <= pos,
        pos + 8 <= b.len(),
        dir::entry_name_len(b, pos) + 8 <= dir::entry_len(b, pos) <= len,
        pos + dir::entry_len(b, pos) <= b.len(),
    ensures
        ({
            let c = bytes::put(b, pos + 4, bytes::le16_bytes(len));
            &&& c.len() == b.len()
            &&& dir::entry_len(c, pos) == len
            &&& dir::entry_at(c, pos) == dir::entry_at(b, pos)
            &&& dir::entry_inode(c, pos) == dir::entry_inode(b, pos)
            &&& forall|i: int| 0 <= i < b.len() && !(pos + 4 <= i < pos + 6) ==> c[i] == b[i]
        }),
{
    broadcast use crate::bytes::group_codec;

    let c = bytes::put(b, pos + 4, bytes::le16_bytes(len));
    let n = dir::entry_name_len(b, pos) as int;
    assert(c.subrange(pos + 8, pos + 8 + n) =~= b.subrange(pos + 8, pos + 8 + n));
}

/// Removing a name from a block, from byte `pos` on. Gives which of the entries
/// was removed. Where that is the first, and a live entry `prev` lies in front of
/// it, only what is left behind it is said.
proof fn lemma_removed(b: Seq<u8>, pos: int, prev: Option<int>, name: Seq<u8>) -> (k: int)
    requires
        0 <= pos,
        dir::block_entries(b, pos) is Ok,
        names_fit(b, pos),
        prev is Some ==> 0 <= prev->Some_0 && prev->Some_0 + 8 <= pos,
        dir_write::removed_at(b, pos, prev, name) is Ok,
        dir_write::removed_at(b, pos, prev, name)->Ok_0 is Some,
    ensures
        ({
            let v = dir::block_entries(b, pos)->Ok_0;
            let (c, num) = dir_write::removed_at(b, pos, prev, name)->Ok_0->Some_0;
            &&& 0 <= k < v.len()
            &&& v[k].inode_num == num
            &&& v[k].name == text::text_of(name)
            &&& c.len() == b.len()
            &&& if prev is Some && comes_next(b, pos, name) {
                let p = prev->Some_0;
                let q = dir_write::found_at(b, pos, Query::Named(name))->Some_0;
                let end = q + dir::entry_len(b, q);
                &&& k == 0
                &&& pos <= q
                &&& q + 8 <= end <= b.len()
                &&& end - p <= u16::MAX || (end == b.len() && end - p == u16::MAX + 1)
                &&& c == bytes::put(
                    b,
                    p + 4,
                    bytes::le16_bytes(dir_write::coded_len((end - p) as u32)),
                )
                &&& dir::block_entries(b, end) == Ok::<Seq<EntryView>, DirError>(v.remove(0))
            } else {
                &&& dir::block_entries(c, pos) == Ok::<Seq<EntryView>, DirError>(v.remove(k))
                &&& forall|i: int| 0 <= i < pos ==> c[i] == b[i]
            }
        }),
    decreases b.len() + 0x1_0000 - pos,
{
    broadcast use crate::bytes::group_codec;

    let v = dir::block_entries(b, pos)->Ok_0;
    let (c, num) = dir_write::removed_at(b, pos, prev, name)->Ok_0->Some_0;
    let len = dir::entry_len(b, pos);
    let e = dir::entry_at(b, pos);
    if dir_write::is_named(b, pos, name) {
        let rest = dir::block_entries(b, pos + len)->Ok_0;
        assert(v.remove(0) =~= rest);
        assert(b.subrange(pos + 8, pos + 8 + name.len()) == name);
        if prev is None {
            lemma_entries_same(c, b, pos + len);
        }
        0
    } else {
        let live = dir::entry_inode(b, pos) != 0;
        let before = if live {
            Some(pos)
        } else {
            prev
        };
        let k = lemma_removed(b, pos + len, before, name);
        let rest = dir::block_entries(b, pos + len)->Ok_0;
        if before is Some && comes_next(b, pos + len, name) {
            if live {
                let q = dir_write::found_at(b, pos + len, Query::Named(name))->Some_0;
                let end = q + dir::entry_len(b, q);
                let reach = dir_write::coded_len((end - pos) as u32);
                lemma_longer_entry(b, pos, reach);
                lemma_entries_same(c, b, end);
                if end - pos > u16::MAX {
                    assert(dir::block_entries(c, pos + reach) == Ok::<Seq<EntryView>, DirError>(
                        Seq::empty(),
                    ));
                    assert(dir::block_entries(b, end) == Ok::<Seq<EntryView>, DirError>(
                        Seq::empty(),
                    ));
                }
                assert(v.remove(1) =~= seq![e] + rest.remove(0));
                1
            } else {
                k
            }
        } else {
            lemma_entry_same(b, c, pos);
            lemma_entry_at_same(b, c, pos);
            if live {
                assert(v.remove(k + 1) =~= seq![e] + rest.remove(k));
                k + 1
            } else {
                k
            }
        }
    }
}

/// A name that was removed from a block is not listed there any more, and the
/// other entries all stay. Gives where it was listed.
pub proof fn law_removed_from_block(b: Seq<u8>, name: Seq<u8>) -> (k: int)
    requires
        dir::block_entries(b, 0) is Ok,
        names_fit(b, 0),
        dir_write::removed_at(b, 0, None, name) is Ok,
        dir_write::removed_at(b, 0, None, name)->Ok_0 is Some,
    ensures
        ({
            let v = dir::block_entries(b, 0)->Ok_0;
            let (c, num) = dir_write::removed_at(b, 0, None, name)->Ok_0->Some_0;
            &&& 0 <= k < v.len()
            &&& v[k].inode_num == num
            &&& v[k].name == text::text_of(name)
            &&& c.len() == b.len()
            &&& dir::block_entries(c, 0) == Ok::<Seq<EntryView>, DirError>(v.remove(k))
        }),
{
    lemma_removed(b, 0, None, name)
}

/// Where logical block `l` of a directory lies.
pub open spec fn place(disk: Seq<u8>, sb: Superblock, i: InodeView, l: int) -> Result<
    Option<u64>,
    ExtentError,
> {
    extent::file_block(disk, sb, i.uses_extents(), i.block_data, l as u64)
}

/// Whether logical block `l` of a directory lies anywhere.
pub open spec fn lies(disk: Seq<u8>, sb: Superblock, i: InodeView, l: int) -> bool {
    place(disk, sb, i, l) is Ok && place(disk, sb, i, l)->Ok_0 is Some
}

/// Whether the first `n` blocks of a directory lie in the same places.
pub open spec fn same_places(a: Seq<u8>, b: Seq<u8>, sb: Superblock, i: InodeView, n: int) -> bool {
    forall|l: int| 0 <= l < n ==> #[trigger] place(a, sb, i, l) == place(b, sb, i, l)
}

/// Whether the first `n` blocks of a directory lie in different places.
pub open spec fn own_places(disk: Seq<u8>, sb: Superblock, i: InodeView, n: int) -> bool {
    forall|l: int, m: int|
        0 <= l < m < n && (#[trigger] place(disk, sb, i, l)) is Ok && place(
            disk,
            sb,
            i,
            l,
        )->Ok_0 is Some ==> place(disk, sb, i, l) != #[trigger] place(disk, sb, i, m)
}

/// Whether none of the first `n` blocks of a directory is the journal's.
pub open spec fn places_off_log(
    disk: Seq<u8>,
    sb: Superblock,
    i: InodeView,
    n: int,
    log: Seq<u64>,
) -> bool {
    forall|l: int|
        0 <= l < n && #[trigger] lies(disk, sb, i, l) ==> !log.contains(
            place(disk, sb, i, l)->Ok_0->Some_0,
        )
}

/// Whether a directory's tree is sound, seen alike by the transaction and on
/// the device, and none of its blocks is used twice
/// or is the journal's.
pub open spec fn sound_dir(
    st: FsState,
    sb: Superblock,
    i: InodeView,
    d: nat,
    log: Seq<u64>,
) -> bool {
    let bs = sb.block_size;
    let hops = block_device::sectors(st.disk) as nat;
    let v = extent::tree_leaves(st.disk, bs, i.block_data, hops)->Ok_0;
    &&& sb.wf()
    &&& i.uses_extents()
    &&& d <= hops
    &&& tree::sound(st.disk, bs, i.block_data, d, 0, tree::LOGICAL_END as int)
    &&& forall|b: u64| #[trigger]
        tree::within(st.disk, bs, i.block_data, d, b) ==> volume::agrees(st, bs, b)
            && !log.contains(b)
    &&& forall|l: u64|
        (#[trigger] extent::mapped(v, l)) is Some ==> !tree::within(
            st.disk,
            bs,
            i.block_data,
            d,
            extent::mapped(v, l)->Some_0,
        ) && !log.contains(extent::mapped(v, l)->Some_0)
    &&& forall|l: u64, m: u64|
        (#[trigger] extent::mapped(v, l)) is Some && l != m ==> extent::mapped(v, l)
            != #[trigger] extent::mapped(v, m)
}

/// Where a directory's blocks lie does not depend on blocks outside its tree.
pub proof fn lemma_places(
    st: FsState,
    sb: Superblock,
    i: InodeView,
    d: nat,
    log: Seq<u64>,
    disk: Seq<u8>,
    n: int,
)
    requires
        sound_dir(st, sb, i, d, log),
        disk.len() == st.disk.len(),
        n <= u64::MAX,
        forall|b: u64| #[trigger]
            tree::within(st.disk, sb.block_size, i.block_data, d, b) ==> block_device::block_at(
                disk,
                sb.block_size,
                b,
            ) == block_device::block_at(st.disk, sb.block_size, b),
    ensures
        same_places(disk, st.disk, sb, i, n),
        own_places(st.disk, sb, i, n),
        own_places(disk, sb, i, n),
        forall|l: int|
            0 <= l < n ==> (#[trigger] place(st.disk, sb, i, l)) is Ok && (place(
                st.disk,
                sb,
                i,
                l,
            )->Ok_0 is Some ==> !tree::within(
                st.disk,
                sb.block_size,
                i.block_data,
                d,
                place(st.disk, sb, i, l)->Ok_0->Some_0,
            ) && !log.contains(place(st.disk, sb, i, l)->Ok_0->Some_0)),
{
    let bs = sb.block_size;
    let root = i.block_data;
    let hops = block_device::sectors(st.disk) as nat;
    let end = tree::LOGICAL_END as int;
    let v = extent::tree_leaves(st.disk, bs, root, hops)->Ok_0;
    tree::law_depends_on_nodes(st.disk, disk, bs, root, d, 0, end, hops);
    assert forall|l: int| 0 <= l < n implies #[trigger] place(disk, sb, i, l) == place(
        st.disk,
        sb,
        i,
        l,
    ) && place(st.disk, sb, i, l) == Ok::<Option<u64>, ExtentError>(
        extent::mapped(v, l as u64),
    ) by {
        tree::law_found_as_listed(st.disk, bs, root, d, 0, end, hops, l as u64);
        tree::law_found_as_listed(disk, bs, root, d, 0, end, hops, l as u64);
    }
    assert forall|l: int| 0 <= l < n implies (#[trigger] place(st.disk, sb, i, l)) is Ok && (place(
        st.disk,
        sb,
        i,
        l,
    )->Ok_0 is Some ==> !tree::within(
        st.disk,
        bs,
        root,
        d,
        place(st.disk, sb, i, l)->Ok_0->Some_0,
    ) && !log.contains(place(st.disk, sb, i, l)->Ok_0->Some_0)) by {
        assert(place(disk, sb, i, l) == place(st.disk, sb, i, l));
    }
    assert forall|l: int, m: int|
        0 <= l < m < n && (#[trigger] place(st.disk, sb, i, l)) is Ok && place(
            st.disk,
            sb,
            i,
            l,
        )->Ok_0 is Some implies place(st.disk, sb, i, l) != #[trigger] place(
        st.disk,
        sb,
        i,
        m,
    ) by {
        assert(place(disk, sb, i, l) == place(st.disk, sb, i, l));
        assert(place(disk, sb, i, m) == place(st.disk, sb, i, m));
    }
    assert forall|l: int, m: int|
        0 <= l < m < n && (#[trigger] place(disk, sb, i, l)) is Ok && place(
            disk,
            sb,
            i,
            l,
        )->Ok_0 is Some implies place(disk, sb, i, l) != #[trigger] place(disk, sb, i, m) by {
        assert(place(st.disk, sb, i, l) != place(st.disk, sb, i, m));
    }
}

/// Blocks that did not change hold the same entries.
pub proof fn lemma_same_entries(
    a: Seq<u8>,
    b: Seq<u8>,
    sb: Superblock,
    i: InodeView,
    l: int,
    n: int,
)
    requires
        0 <= l,
        same_places(a, b, sb, i, n),
        forall|m: int|
            l <= m < n && (#[trigger] place(a, sb, i, m)) is Ok && place(a, sb, i, m)->Ok_0 is Some
                ==> block_device::block_at(a, sb.block_size, place(a, sb, i, m)->Ok_0->Some_0)
                == block_device::block_at(b, sb.block_size, place(a, sb, i, m)->Ok_0->Some_0),
    ensures
        dir::entries_from(a, sb, i, l, n) == dir::entries_from(b, sb, i, l, n),
    decreases n - l,
{
    if l < n {
        assert(place(a, sb, i, l) == place(b, sb, i, l));
        lemma_same_entries(a, b, sb, i, l + 1, n);
    }
}

/// Whether the two disks differ at most in block `p` and in the journal.
pub open spec fn differ_in(a: Seq<u8>, b: Seq<u8>, bs: u32, log: Seq<u64>, p: u64) -> bool {
    forall|c: u64| #![trigger block_device::block_at(b, bs, c)]
        c != p && !log.contains(c) ==> block_device::block_at(
            b,
            bs,
            c,
        ) == block_device::block_at(a, bs, c)
}

/// A name that went into one of the blocks from `l` on. Gives its place in the
/// list, and the block.
proof fn lemma_inserted_from(
    st: FsState,
    sb: Superblock,
    i: InodeView,
    name: Seq<u8>,
    num: u32,
    file_type: u8,
    l: int,
    n: int,
    log: Seq<u64>,
    before: Seq<u8>,
    after: Seq<u8>,
) -> (r: (int, int))
    requires
        0 <= l,
        num != 0,
        name.len() <= 255,
        own_places(before, sb, i, n),
        places_off_log(st.disk, sb, i, n, log),
        same_places(before, st.disk, sb, i, n),
        same_places(after, st.disk, sb, i, n),
        volume::sees(st, sb.block_size, log, before),
        dir_write::inserted_from(st, sb, i, name, num, file_type, l, n).1 == Ok::<
            bool,
            DirWriteError,
        >(true),
        volume::sees(
            dir_write::inserted_from(st, sb, i, name, num, file_type, l, n).0,
            sb.block_size,
            log,
            after,
        ),
        sb.wf(),
        dir::entries_from(before, sb, i, l, n) is Ok,
    ensures
        ({
            let v = dir::entries_from(before, sb, i, l, n)->Ok_0;
            &&& 0 <= r.0 <= v.len()
            &&& dir::entries_from(after, sb, i, l, n) == Ok::<Seq<EntryView>, DirError>(
                v.insert(
                    r.0,
                    EntryView { inode_num: num, name: text::text_of(name), file_type },
                ),
            )
            &&& l <= r.1 < n
            &&& lies(before, sb, i, r.1)
            &&& differ_in(
                before,
                after,
                sb.block_size,
                log,
                place(before, sb, i, r.1)->Ok_0->Some_0,
            )
        }),
    decreases n - l,
{
    let bs = sb.block_size;
    let v = dir::entries_from(before, sb, i, l, n)->Ok_0;
    let e = EntryView { inode_num: num, name: text::text_of(name), file_type };
    assert(place(before, sb, i, l) == place(st.disk, sb, i, l));
    assert(place(after, sb, i, l) == place(st.disk, sb, i, l));
    match place(st.disk, sb, i, l) {
        Err(_) => (0, 0),
        Ok(None) => lemma_inserted_from(
            st,
            sb,
            i,
            name,
            num,
            file_type,
            l + 1,
            n,
            log,
            before,
            after,
        ),
        Ok(Some(p)) => {
            assert(lies(st.disk, sb, i, l));
            let b = block_device::block_at(before, bs, p)->Ok_0;
            let a = dir::block_entries(b, 0)->Ok_0;
            let rest = dir::entries_from(before, sb, i, l + 1, n)->Ok_0;
            match dir_write::inserted_at(b, 0, name, num, file_type) {
                Err(_) => (0, 0),
                Ok(Some(b2)) => {
                    let k = law_inserted_in_block(b, 0, name, num, file_type);
                    block_device::lemma_block_at(before, bs, p);
                    writer::lemma_pin(st.txn.blocks, p, b2, p);
                    assert(block_device::block_at(after, bs, p) == Ok::<
                        Seq<u8>,
                        BlockDeviceError,
                    >(b2));
                    assert forall|c: u64| #![trigger block_device::block_at(after, bs, c)]
                        c != p && !log.contains(c) implies block_device::block_at(after, bs, c)
                        == block_device::block_at(before, bs, c) by {
                        writer::lemma_pin(st.txn.blocks, p, b2, c);
                        assert(block_device::block_at(before, bs, c) == fs_state::fetched(
                            st.disk,
                            st.txn.blocks,
                            bs,
                            c,
                        ));
                    }
                    assert forall|m: int|
                        l + 1 <= m < n && (#[trigger] place(after, sb, i, m)) is Ok && place(
                            after,
                            sb,
                            i,
                            m,
                        )->Ok_0 is Some implies block_device::block_at(
                        after,
                        bs,
                        place(after, sb, i, m)->Ok_0->Some_0,
                    ) == block_device::block_at(
                        before,
                        bs,
                        place(after, sb, i, m)->Ok_0->Some_0,
                    ) by {
                        assert(place(before, sb, i, m) == place(st.disk, sb, i, m));
                        assert(place(before, sb, i, l) != place(before, sb, i, m));
                        assert(lies(st.disk, sb, i, m));
                    }
                    assert(same_places(after, before, sb, i, n)) by {
                        assert forall|m: int| 0 <= m < n implies #[trigger] place(after, sb, i, m)
                            == place(before, sb, i, m) by {
                            assert(place(before, sb, i, m) == place(st.disk, sb, i, m));
                        }
                    }
                    lemma_same_entries(after, before, sb, i, l + 1, n);
                    assert(a.insert(k, e) + rest =~= (a + rest).insert(k, e));
                    (k, l)
                },
                Ok(None) => {
                    let (k, m) = lemma_inserted_from(
                        st,
                        sb,
                        i,
                        name,
                        num,
                        file_type,
                        l + 1,
                        n,
                        log,
                        before,
                        after,
                    );
                    assert(place(before, sb, i, l) != place(before, sb, i, m));
                    assert(block_device::block_at(after, bs, p) == block_device::block_at(
                        before,
                        bs,
                        p,
                    ));
                    assert(a + rest.insert(k, e) =~= (a + rest).insert(a.len() + k, e));
                    (a.len() + k, m)
                },
            }
        },
    }
}

/// What is left of what a transaction sees once a block that is no node of the
/// directory's tree was pinned.
proof fn lemma_seen(
    st: FsState,
    s: FsState,
    sb: Superblock,
    i: InodeView,
    d: nat,
    p: u64,
    data: Seq<u8>,
    log: Seq<u64>,
    disk: Seq<u8>,
)
    requires
        sound_dir(st, sb, i, d, log),
        s == st || s == fs_state::pin(st, p, data),
        volume::sees(s, sb.block_size, log, disk),
        !tree::within(st.disk, sb.block_size, i.block_data, d, p),
    ensures
        forall|b: u64| #[trigger]
            tree::within(st.disk, sb.block_size, i.block_data, d, b) ==> block_device::block_at(
                disk,
                sb.block_size,
                b,
            ) == block_device::block_at(st.disk, sb.block_size, b),
{
    assert forall|b: u64| #[trigger]
        tree::within(st.disk, sb.block_size, i.block_data, d, b) implies block_device::block_at(
        disk,
        sb.block_size,
        b,
    ) == block_device::block_at(st.disk, sb.block_size, b) by {
        reveal(volume::agrees);
        writer::lemma_pin(st.txn.blocks, p, data, b);
    }
}

/// An insertion does not change the length of a block.
pub proof fn lemma_inserted_len(b: Seq<u8>, pos: int, name: Seq<u8>, num: u32, file_type: u8)
    ensures
        match dir_write::inserted_at(b, pos, name, num, file_type) {
            Ok(Some(c)) => c.len() == b.len(),
            _ => true,
        },
    decreases b.len() + 0x1_0000 - pos,
{
    if pos + 8 <= b.len() && dir::entry_len(b, pos) >= 8 {
        lemma_inserted_len(b, pos + dir::entry_len(b, pos), name, num, file_type);
    }
}

/// Nor does a removal.
proof fn lemma_removed_len(b: Seq<u8>, pos: int, prev: Option<int>, name: Seq<u8>)
    ensures
        match dir_write::removed_at(b, pos, prev, name) {
            Ok(Some((c, _))) => c.len() == b.len(),
            _ => true,
        },
    decreases b.len() + 0x1_0000 - pos,
{
    if pos + 8 <= b.len() && dir::entry_len(b, pos) >= 8 {
        lemma_removed_len(
            b,
            pos + dir::entry_len(b, pos),
            if dir::entry_inode(b, pos) != 0 {
                Some(pos)
            } else {
                prev
            },
            name,
        );
    }
}

/// The block that an insertion changes is one of the directory's.
pub proof fn lemma_inserted_where(
    st: FsState,
    sb: Superblock,
    i: InodeView,
    name: Seq<u8>,
    num: u32,
    file_type: u8,
    l: int,
    n: int,
) -> (r: (int, Seq<u8>))
    requires
        sb.wf(),
        0 <= l,
        dir_write::inserted_from(st, sb, i, name, num, file_type, l, n).1 == Ok::<
            bool,
            DirWriteError,
        >(true),
    ensures
        l <= r.0 < n,
        lies(st.disk, sb, i, r.0),
        dir_write::inserted_from(st, sb, i, name, num, file_type, l, n).0 == fs_state::pin(
            st,
            place(st.disk, sb, i, r.0)->Ok_0->Some_0,
            r.1,
        ),
        r.1.len() == sb.block_size,
        fs_state::fetched(
            st.disk,
            st.txn.blocks,
            sb.block_size,
            place(st.disk, sb, i, r.0)->Ok_0->Some_0,
        ) is Ok,
    decreases n - l,
{
    match place(st.disk, sb, i, l) {
        Err(_) => (0, Seq::empty()),
        Ok(None) => lemma_inserted_where(st, sb, i, name, num, file_type, l + 1, n),
        Ok(Some(p)) => {
            let b = fs_state::fetched(st.disk, st.txn.blocks, sb.block_size, p)->Ok_0;
            block_device::lemma_block_at(st.disk, sb.block_size, p);
            lemma_inserted_len(b, 0, name, num, file_type);
            match dir_write::inserted_at(b, 0, name, num, file_type) {
                Err(_) => (0, Seq::empty()),
                Ok(Some(b2)) => (l, b2),
                Ok(None) => lemma_inserted_where(st, sb, i, name, num, file_type, l + 1, n),
            }
        },
    }
}

/// A name that went into one of a directory's blocks is listed, and all that
/// was listed still is. Gives its place in the list. `before` and `after` are
/// what the transaction sees before and after.
pub proof fn law_inserted(
    st: FsState,
    sb: Superblock,
    i: InodeView,
    d: nat,
    name: Seq<u8>,
    num: u32,
    file_type: u8,
    log: Seq<u64>,
    before: Seq<u8>,
    after: Seq<u8>,
) -> (k: int)
    requires
        sound_dir(st, sb, i, d, log),
        num != 0,
        name.len() <= 255,
        dir_write::inserted_from(
            st,
            sb,
            i,
            name,
            num,
            file_type,
            0,
            dir::dir_blocks(sb, i),
        ).1 == Ok::<bool, DirWriteError>(true),
        volume::sees(st, sb.block_size, log, before),
        volume::sees(
            dir_write::inserted_from(
                st,
                sb,
                i,
                name,
                num,
                file_type,
                0,
                dir::dir_blocks(sb, i),
            ).0,
            sb.block_size,
            log,
            after,
        ),
        dir::dir_entries(before, sb, i) is Ok,
    ensures
        ({
            let v = dir::dir_entries(before, sb, i)->Ok_0;
            &&& 0 <= k <= v.len()
            &&& dir::dir_entries(after, sb, i) == Ok::<Seq<EntryView>, DirError>(
                v.insert(
                    k,
                    EntryView { inode_num: num, name: text::text_of(name), file_type },
                ),
            )
        }),
{
    let n = dir::dir_blocks(sb, i);
    lemma_dir_blocks(sb, i);
    lemma_places(st, sb, i, d, log, st.disk, n);
    let (m, data) = lemma_inserted_where(st, sb, i, name, num, file_type, 0, n);
    let p = place(st.disk, sb, i, m)->Ok_0->Some_0;
    let s = dir_write::inserted_from(st, sb, i, name, num, file_type, 0, n).0;
    lemma_seen(st, st, sb, i, d, p, data, log, before);
    lemma_seen(st, s, sb, i, d, p, data, log, after);
    lemma_places(st, sb, i, d, log, before, n);
    lemma_places(st, sb, i, d, log, after, n);
    lemma_inserted_from(st, sb, i, name, num, file_type, 0, n, log, before, after).0
}

/// A directory has no more blocks than a number of 64 bits can count.
pub proof fn lemma_dir_blocks(sb: Superblock, i: InodeView)
    requires
        sb.wf(),
    ensures
        0 <= dir::dir_blocks(sb, i) <= u64::MAX,
{
}

/// A name that is listed anew is found, and every other name is found as
/// before.
pub proof fn law_listed_is_found(v: Seq<EntryView>, k: int, e: EntryView, other: Seq<char>)
    requires
        0 <= k <= v.len(),
        dir::first_named(v, e.name) is None,
    ensures
        dir::first_named(v.insert(k, e), e.name) == Some(e.inode_num),
        other != e.name ==> dir::first_named(v.insert(k, e), other) == dir::first_named(v, other),
    decreases v.len(),
{
    let w = v.insert(k, e);
    if k == 0 {
        assert(w.skip(1) =~= v);
    } else {
        assert(w.skip(1) =~= v.skip(1).insert(k - 1, e));
        law_listed_is_found(v.skip(1), k - 1, e, other);
    }
}

/// A name that was listed once and no longer is is not found, and every other
/// name is found as before.
pub proof fn law_unlisted_is_not_found(v: Seq<EntryView>, k: int, other: Seq<char>)
    requires
        0 <= k < v.len(),
        forall|j: int| 0 <= j < v.len() && j != k ==> (#[trigger] v[j]).name != v[k].name,
    ensures
        dir::first_named(v.remove(k), v[k].name) is None,
        other != v[k].name ==> dir::first_named(v.remove(k), other) == dir::first_named(
            v,
            other,
        ),
    decreases v.len(),
{
    let w = v.remove(k);
    if k == 0 {
        assert(w =~= v.skip(1));
        assert forall|j: int| 0 <= j < w.len() implies (#[trigger] w[j]).name != v[k].name by {
            assert(w[j] == v[j + 1]);
        }
        lemma_not_named(w, v[k].name);
    } else {
        let t = v.skip(1);
        assert(t[k - 1] == v[k]);
        assert(w.skip(1) =~= t.remove(k - 1));
        assert forall|j: int| 0 <= j < t.len() && j != k - 1 implies (#[trigger] t[j]).name
            != t[k - 1].name by {
            assert(t[j] == v[j + 1]);
        }
        assert(v[0].name != v[k].name);
        law_unlisted_is_not_found(t, k - 1, other);
    }
}

proof fn lemma_not_named(v: Seq<EntryView>, name: Seq<char>)
    requires
        forall|j: int| 0 <= j < v.len() ==> (#[trigger] v[j]).name != name,
    ensures
        dir::first_named(v, name) is None,
    decreases v.len(),
{
    if v.len() > 0 {
        let t = v.skip(1);
        assert forall|j: int| 0 <= j < t.len() implies (#[trigger] t[j]).name != name by {
            assert(t[j] == v[j + 1]);
        }
        lemma_not_named(t, name);
    }
}

/// Whether each live entry of a directory has room for its name.
pub open spec fn all_fit(disk: Seq<u8>, sb: Superblock, i: InodeView, n: int) -> bool {
    forall|l: int|
        0 <= l < n && #[trigger] lies(disk, sb, i, l) ==> names_fit(
            block_device::block_at(
                disk,
                sb.block_size,
                place(disk, sb, i, l)->Ok_0->Some_0,
            )->Ok_0,
            0,
        )
}

/// A name that was removed from one of the blocks from `l` on. Gives where it
/// was in the list, and the block.
proof fn lemma_removed_from(
    st: FsState,
    sb: Superblock,
    i: InodeView,
    name: Seq<char>,
    l: int,
    n: int,
    log: Seq<u64>,
    before: Seq<u8>,
    after: Seq<u8>,
) -> (r: (int, int))
    requires
        0 <= l,
        own_places(before, sb, i, n),
        places_off_log(st.disk, sb, i, n, log),
        same_places(before, st.disk, sb, i, n),
        same_places(after, st.disk, sb, i, n),
        volume::sees(st, sb.block_size, log, before),
        all_fit(before, sb, i, n),
        dir_write::removed_from(st, sb, i, name, l, n).1 is Ok,
        volume::sees(dir_write::removed_from(st, sb, i, name, l, n).0, sb.block_size, log, after),
        sb.wf(),
        dir::entries_from(before, sb, i, l, n) is Ok,
    ensures
        ({
            let v = dir::entries_from(before, sb, i, l, n)->Ok_0;
            let num = dir_write::removed_from(st, sb, i, name, l, n).1->Ok_0;
            &&& 0 <= r.0 < v.len()
            &&& v[r.0].inode_num == num
            &&& v[r.0].name == name
            &&& dir::entries_from(after, sb, i, l, n) == Ok::<Seq<EntryView>, DirError>(
                v.remove(r.0),
            )
            &&& l <= r.1 < n
            &&& lies(before, sb, i, r.1)
            &&& differ_in(
                before,
                after,
                sb.block_size,
                log,
                place(before, sb, i, r.1)->Ok_0->Some_0,
            )
        }),
    decreases n - l,
{
    let bs = sb.block_size;
    let v = dir::entries_from(before, sb, i, l, n)->Ok_0;
    let bytes = dir_write::name_bytes(name);
    assert(place(before, sb, i, l) == place(st.disk, sb, i, l));
    assert(place(after, sb, i, l) == place(st.disk, sb, i, l));
    text::law_encoded_is_read(name);
    match place(st.disk, sb, i, l) {
        Err(_) => (0, 0),
        Ok(None) => lemma_removed_from(st, sb, i, name, l + 1, n, log, before, after),
        Ok(Some(p)) => {
            assert(lies(before, sb, i, l));
            assert(lies(st.disk, sb, i, l));
            let b = block_device::block_at(before, bs, p)->Ok_0;
            let a = dir::block_entries(b, 0)->Ok_0;
            let rest = dir::entries_from(before, sb, i, l + 1, n)->Ok_0;
            match dir_write::removed_at(b, 0, None, bytes) {
                Err(_) => (0, 0),
                Ok(Some((b2, num))) => {
                    let k = law_removed_from_block(b, bytes);
                    block_device::lemma_block_at(before, bs, p);
                    writer::lemma_pin(st.txn.blocks, p, b2, p);
                    assert(block_device::block_at(after, bs, p) == Ok::<
                        Seq<u8>,
                        BlockDeviceError,
                    >(b2));
                    assert forall|c: u64| #![trigger block_device::block_at(after, bs, c)]
                        c != p && !log.contains(c) implies block_device::block_at(after, bs, c)
                        == block_device::block_at(before, bs, c) by {
                        writer::lemma_pin(st.txn.blocks, p, b2, c);
                        assert(block_device::block_at(before, bs, c) == fs_state::fetched(
                            st.disk,
                            st.txn.blocks,
                            bs,
                            c,
                        ));
                    }
                    assert forall|m: int|
                        l + 1 <= m < n && (#[trigger] place(after, sb, i, m)) is Ok && place(
                            after,
                            sb,
                            i,
                            m,
                        )->Ok_0 is Some implies block_device::block_at(
                        after,
                        bs,
                        place(after, sb, i, m)->Ok_0->Some_0,
                    ) == block_device::block_at(
                        before,
                        bs,
                        place(after, sb, i, m)->Ok_0->Some_0,
                    ) by {
                        assert(place(before, sb, i, m) == place(st.disk, sb, i, m));
                        assert(place(before, sb, i, l) != place(before, sb, i, m));
                        assert(lies(st.disk, sb, i, m));
                    }
                    assert(same_places(after, before, sb, i, n)) by {
                        assert forall|m: int| 0 <= m < n implies #[trigger] place(after, sb, i, m)
                            == place(before, sb, i, m) by {
                            assert(place(before, sb, i, m) == place(st.disk, sb, i, m));
                        }
                    }
                    lemma_same_entries(after, before, sb, i, l + 1, n);
                    assert(a.remove(k) + rest =~= (a + rest).remove(k));
                    (k, l)
                },
                Ok(None) => {
                    let (k, m) = lemma_removed_from(
                        st,
                        sb,
                        i,
                        name,
                        l + 1,
                        n,
                        log,
                        before,
                        after,
                    );
                    assert(place(before, sb, i, l) != place(before, sb, i, m));
                    assert(block_device::block_at(after, bs, p) == block_device::block_at(
                        before,
                        bs,
                        p,
                    ));
                    assert(a + rest.remove(k) =~= (a + rest).remove(a.len() + k));
                    (a.len() + k, m)
                },
            }
        },
    }
}

/// The block that a removal changes is one of the directory's.
pub proof fn lemma_removed_where(
    st: FsState,
    sb: Superblock,
    i: InodeView,
    name: Seq<char>,
    l: int,
    n: int,
) -> (r: (int, Seq<u8>))
    requires
        sb.wf(),
        0 <= l,
        dir_write::removed_from(st, sb, i, name, l, n).1 is Ok,
    ensures
        l <= r.0 < n,
        lies(st.disk, sb, i, r.0),
        dir_write::removed_from(st, sb, i, name, l, n).0 == fs_state::pin(
            st,
            place(st.disk, sb, i, r.0)->Ok_0->Some_0,
            r.1,
        ),
        r.1.len() == sb.block_size,
        block_device::block_at(
            st.disk,
            sb.block_size,
            place(st.disk, sb, i, r.0)->Ok_0->Some_0,
        ) is Ok,
    decreases n - l,
{
    match place(st.disk, sb, i, l) {
        Err(_) => (0, Seq::empty()),
        Ok(None) => lemma_removed_where(st, sb, i, name, l + 1, n),
        Ok(Some(p)) => {
            let b = dir_write::readable(st, sb, p)->Ok_0;
            block_device::lemma_block_at(st.disk, sb.block_size, p);
            lemma_removed_len(b, 0, None, dir_write::name_bytes(name));
            match dir_write::removed_at(b, 0, None, dir_write::name_bytes(name)) {
                Err(_) => (0, Seq::empty()),
                Ok(Some((b2, num))) => (l, b2),
                Ok(None) => lemma_removed_where(st, sb, i, name, l + 1, n),
            }
        },
    }
}

/// A name that was removed from a directory was listed there with the inode
/// that the removal gives, and the list goes without that entry then. Gives
/// where it was.
pub proof fn law_removed(
    st: FsState,
    sb: Superblock,
    i: InodeView,
    d: nat,
    name: Seq<char>,
    log: Seq<u64>,
    before: Seq<u8>,
    after: Seq<u8>,
) -> (k: int)
    requires
        sound_dir(st, sb, i, d, log),
        dir_write::removed_from(st, sb, i, name, 0, dir::dir_blocks(sb, i)).1 is Ok,
        volume::sees(st, sb.block_size, log, before),
        volume::sees(
            dir_write::removed_from(st, sb, i, name, 0, dir::dir_blocks(sb, i)).0,
            sb.block_size,
            log,
            after,
        ),
        all_fit(before, sb, i, dir::dir_blocks(sb, i)),
        dir::dir_entries(before, sb, i) is Ok,
    ensures
        ({
            let v = dir::dir_entries(before, sb, i)->Ok_0;
            let num = dir_write::removed_from(
                st,
                sb,
                i,
                name,
                0,
                dir::dir_blocks(sb, i),
            ).1->Ok_0;
            &&& 0 <= k < v.len()
            &&& v[k].inode_num == num
            &&& v[k].name == name
            &&& dir::dir_entries(after, sb, i) == Ok::<Seq<EntryView>, DirError>(v.remove(k))
        }),
{
    let n = dir::dir_blocks(sb, i);
    lemma_dir_blocks(sb, i);
    lemma_places(st, sb, i, d, log, st.disk, n);
    let (m, data) = lemma_removed_where(st, sb, i, name, 0, n);
    let p = place(st.disk, sb, i, m)->Ok_0->Some_0;
    let s = dir_write::removed_from(st, sb, i, name, 0, n).0;
    lemma_seen(st, st, sb, i, d, p, data, log, before);
    lemma_seen(st, s, sb, i, d, p, data, log, after);
    lemma_places(st, sb, i, d, log, before, n);
    lemma_places(st, sb, i, d, log, after, n);
    lemma_removed_from(st, sb, i, name, 0, n, log, before, after).0
}

/// A block more, with one entry.
proof fn lemma_more_entries(
    a: Seq<u8>,
    j: InodeView,
    b: Seq<u8>,
    i: InodeView,
    sb: Superblock,
    l: int,
    n: int,
    fresh: u64,
    data: Seq<u8>,
    e: EntryView,
)
    requires
        0 <= l <= n,
        forall|m: int| 0 <= m < n ==> #[trigger] place(a, sb, j, m) == place(b, sb, i, m),
        forall|m: int|
            0 <= m < n && #[trigger] lies(b, sb, i, m) ==> block_device::block_at(
                a,
                sb.block_size,
                place(b, sb, i, m)->Ok_0->Some_0,
            ) == block_device::block_at(b, sb.block_size, place(b, sb, i, m)->Ok_0->Some_0),
        place(a, sb, j, n) == Ok::<Option<u64>, ExtentError>(Some(fresh)),
        block_device::block_at(a, sb.block_size, fresh) == Ok::<Seq<u8>, BlockDeviceError>(data),
        dir::block_entries(data, 0) == Ok::<Seq<EntryView>, DirError>(seq![e]),
        dir::entries_from(b, sb, i, l, n) is Ok,
    ensures
        dir::entries_from(a, sb, j, l, n + 1) == Ok::<Seq<EntryView>, DirError>(
            dir::entries_from(b, sb, i, l, n)->Ok_0.push(e),
        ),
    decreases n - l,
{
    let v = dir::entries_from(b, sb, i, l, n)->Ok_0;
    if l == n {
        assert(dir::entries_from(a, sb, j, n + 1, n + 1) == Ok::<Seq<EntryView>, DirError>(
            Seq::empty(),
        ));
        assert(seq![e] + Seq::<EntryView>::empty() =~= v.push(e));
    } else {
        assert(place(a, sb, j, l) == place(b, sb, i, l));
        lemma_more_entries(a, j, b, i, sb, l + 1, n, fresh, data, e);
        let rest = dir::entries_from(b, sb, i, l + 1, n)->Ok_0;
        match place(b, sb, i, l) {
            Err(_) => {},
            Ok(None) => {},
            Ok(Some(p)) => {
                assert(lies(b, sb, i, l));
                let x = dir::block_entries(
                    block_device::block_at(b, sb.block_size, p)->Ok_0,
                    0,
                )->Ok_0;
                assert(x + rest.push(e) =~= (x + rest).push(e));
            },
        }
    }
}

/// A block that holds one entry alone.
pub proof fn lemma_lone_entry(bs: u32, num: u32, name: Seq<u8>, file_type: u8)
    requires
        block_device::valid_block_size(bs),
        num != 0,
        name.len() <= 255,
    ensures
        ({
            let data = dir_write::with_dirent(
                bytes::zeros(bs as int),
                0,
                num,
                name,
                file_type,
                dir_write::coded_len(bs),
            );
            &&& data.len() == bs
            &&& dir::block_entries(data, 0) == Ok::<Seq<EntryView>, DirError>(
                seq![EntryView { inode_num: num, name: text::text_of(name), file_type }],
            )
        }),
{
    let z = bytes::zeros(bs as int);
    let data = dir_write::with_dirent(z, 0, num, name, file_type, dir_write::coded_len(bs));
    let e = EntryView { inode_num: num, name: text::text_of(name), file_type };
    lemma_dirent(z, 0, num, name, file_type, dir_write::coded_len(bs));
    assert(dir::block_entries(data, dir_write::coded_len(bs) as int) == Ok::<
        Seq<EntryView>,
        DirError,
    >(Seq::empty()));
    assert(seq![e] + Seq::<EntryView>::empty() =~= seq![e]);
}

/// Whether a directory's file is sound, and as long as it has blocks.
pub open spec fn sound_dir_file(st: FsState, sb: Superblock, num: u32, d: nat) -> bool {
    let i = volume::inode_now(st, sb, num);
    &&& volume::sound_file(st, sb, num, d)
    &&& i.is_dir()
    &&& i.size as int % sb.block_size as int == 0
    &&& tree::end_of(volume::extents_now(st, sb, num)) == i.size as int / sb.block_size as int
}

/// A block that is allocated and pinned is ready to be appended.
#[verifier::rlimit(100)]
pub proof fn lemma_pinned_ready(
    st: FsState,
    sb: Superblock,
    num: u32,
    d: nat,
    hint: u64,
    data: Seq<u8>,
)
    requires
        volume::sound_file(st, sb, num, d),
        block_alloc::allocated(st, sb, 1, hint).1 is Ok,
        data.len() == sb.block_size,
    ensures
        ({
            let (s1, r1) = block_alloc::allocated(st, sb, 1, hint);
            let fresh = r1->Ok_0;
            let s2 = fs_state::pin(s1, fresh, data);
            &&& volume::sound_file(s2, sb, num, d)
            &&& volume::later(st, s2, sb)
            &&& append::ready(s2, sb, num, d, fresh, 1)
            &&& append::bystander(s2, sb, num, d, fresh)
            &&& !volume::used(st, sb, fresh)
            &&& volume::extents_now(s2, sb, num) == volume::extents_now(st, sb, num)
            &&& volume::inode_now(s2, sb, num) == volume::inode_now(st, sb, num)
            &&& volume::table_block(s2.gdt, sb, num) == volume::table_block(st.gdt, sb, num)
            &&& fs_state::fetched(s2.disk, s2.txn.blocks, sb.block_size, fresh) == Ok::<
                Seq<u8>,
                BlockDeviceError,
            >(data)
            &&& forall|b: u64| #[trigger]
                append::bystander(st, sb, num, d, b) ==> volume::untouched(
                    st,
                    s2,
                    sb.block_size,
                    b,
                ) && append::bystander(s2, sb, num, d, b)
        }),
{
    let bs = sb.block_size;
    let (s1, r1) = block_alloc::allocated(st, sb, 1, hint);
    let fresh = r1->Ok_0;
    let s2 = fs_state::pin(s1, fresh, data);
    volume::lemma_allocated(st, sb, 1, hint);
    volume::lemma_volume_kept(st, s1, sb);
    volume::lemma_file_kept(st, s1, sb, num, d);
    assert(volume::used(s1, sb, fresh));
    assert(!volume::used(st, sb, fresh));
    if volume::is_group_block(st.gdt, sb, fresh) {
        data::lemma_group_blocks_used(st, sb, fresh);
    }
    assert(volume::later(s1, s2, sb)) by {
        data::lemma_same_bitmaps(s1, s2, sb, 0, 0);
    }
    assert forall|c: u64| volume::agrees(s1, bs, c) && c != fresh implies #[trigger]
        volume::agrees(s2, bs, c) by {
        reveal(volume::agrees);
        writer::lemma_pin(s1.txn.blocks, fresh, data, c);
    }
    writer::lemma_pin(s1.txn.blocks, fresh, data, fresh);
    assert(!volume::node_block(st, sb, num, d, fresh));
    volume::lemma_file_kept(s1, s2, sb, num, d);
    append::lemma_later(st, s1, s2, sb);
    assert(volume::used(s2, sb, fresh));
    assert(volume::kept_apart(s2, sb, num, fresh));
    assert(append::ready(s2, sb, num, d, fresh, 1)) by {
        assert forall|b: u64| fresh <= b < fresh + 1 implies #[trigger] volume::kept_apart(
            s2,
            sb,
            num,
            b,
        ) && !volume::node_block(s2, sb, num, d, b) && append::unmapped(
            volume::extents_now(s2, sb, num),
            b,
        ) by {
            assert(b == fresh);
        }
    }
    assert forall|b: u64| #[trigger] append::bystander(st, sb, num, d, b) implies {
        &&& volume::untouched(st, s2, bs, b)
        &&& append::bystander(s2, sb, num, d, b)
    } by {
        assert(volume::used(s2, sb, b));
        assert(b != fresh);
        assert(block_device::block_at(s1.disk, bs, b) == block_device::block_at(st.disk, bs, b));
        writer::lemma_pin(s1.txn.blocks, fresh, data, b);
    }
}

/// A name that went into a new block of a directory is listed behind all that
/// was listed, once the transaction's blocks are in place.
#[verifier::rlimit(100)]
pub proof fn law_extended(
    st: FsState,
    sb: Superblock,
    dir_num: u32,
    d: nat,
    name: Seq<u8>,
    num: u32,
    file_type: u8,
    log: Seq<u64>,
    before: Seq<u8>,
    after: Seq<u8>,
)
    requires
        sound_dir_file(st, sb, dir_num, d),
        append::clear_of(st, sb, dir_num, d, log),
        volume::inode_now(st, sb, dir_num).size + sb.block_size <= u64::MAX,
        tree::end_of(volume::extents_now(st, sb, dir_num)) < tree::LOGICAL_END,
        num != 0,
        name.len() <= 255,
        dir_write::extended(
            st,
            sb,
            st.gdt,
            dir_num,
            volume::inode_now(st, sb, dir_num),
            name,
            num,
            file_type,
        ).1 is Ok,
        volume::sees(st, sb.block_size, log, before),
        volume::sees(
            dir_write::extended(
                st,
                sb,
                st.gdt,
                dir_num,
                volume::inode_now(st, sb, dir_num),
                name,
                num,
                file_type,
            ).0,
            sb.block_size,
            log,
            after,
        ),
        dir::dir_entries(before, sb, volume::inode_now(st, sb, dir_num)) is Ok,
    ensures
        ({
            let i = volume::inode_now(st, sb, dir_num);
            let r = inode::inode_at(after, sb, st.gdt, dir_num);
            &&& r is Ok
            &&& r->Ok_0 == (InodeView {
                size: (i.size + sb.block_size) as u64,
                block_data: r->Ok_0.block_data,
                ..i
            })
            &&& dir::dir_entries(after, sb, r->Ok_0) == Ok::<Seq<EntryView>, DirError>(
                dir::dir_entries(before, sb, i)->Ok_0.push(
                    EntryView { inode_num: num, name: text::text_of(name), file_type },
                ),
            )
        }),
{
    let bs = sb.block_size;
    let i = volume::inode_now(st, sb, dir_num);
    let v = volume::extents_now(st, sb, dir_num);
    let n = dir::dir_blocks(sb, i);
    let e = EntryView { inode_num: num, name: text::text_of(name), file_type };
    let data = dir_write::with_dirent(
        bytes::zeros(bs as int),
        0,
        num,
        name,
        file_type,
        dir_write::coded_len(bs),
    );
    lemma_lone_entry(bs, num, name, file_type);
    let hint = dir_write::growth_hint(st.disk, sb, i)->Ok_0;
    let (s1, r1) = block_alloc::allocated(st, sb, 1, hint);
    let fresh = r1->Ok_0;
    let s2 = fs_state::pin(s1, fresh, data);
    lemma_pinned_ready(st, sb, dir_num, d, hint, data);
    let s3 = extent_write::appended(s2, sb, dir_num, fresh, 1).0;
    let d3 = append::law_appended(s2, sb, dir_num, d, fresh, 1);
    append::lemma_later(st, s2, s3, sb);
    let u = InodeUpdate { size: Some((i.size + bs) as u64), ..inode_write::no_update() };
    lemma_clear_grown(st, s2, s3, sb, dir_num, d, d3, fresh, log);
    volume::lemma_update_shows(s3, sb, st.gdt, dir_num, u, log, after);
    let j = inode::inode_at(after, sb, st.gdt, dir_num)->Ok_0;
    let w = volume::extents_now(s3, sb, dir_num);
    lemma_grown_blocks(i.size as int, bs as int);
    assert forall|m: int| 0 <= m < n implies #[trigger] place(after, sb, j, m) == place(
        before,
        sb,
        i,
        m,
    ) && place(before, sb, i, m) == Ok::<Option<u64>, ExtentError>(
        extent::mapped(v, m as u64),
    ) by {
        volume::lemma_seen_block(st, sb, dir_num, d, log, before, m as u64);
        volume::lemma_updated_block(s3, sb, st.gdt, dir_num, d3, u, log, after, m as u64);
    }
    assert(place(after, sb, j, n) == Ok::<Option<u64>, ExtentError>(Some(fresh))) by {
        volume::lemma_updated_block(s3, sb, st.gdt, dir_num, d3, u, log, after, n as u64);
    }
    assert forall|m: int| 0 <= m < n && #[trigger] lies(before, sb, i, m) implies {
        let p = place(before, sb, i, m)->Ok_0->Some_0;
        block_device::block_at(after, bs, p) == block_device::block_at(before, bs, p)
    } by {
        let p = place(before, sb, i, m)->Ok_0->Some_0;
        assert(place(after, sb, j, m) == place(before, sb, i, m));
        assert(extent::mapped(v, m as u64) is Some);
        if log.contains(p) {
            assert(append::unmapped(v, p));
        }
        assert(append::bystander(st, sb, dir_num, d, p));
        assert(append::bystander(s2, sb, dir_num, d, p));
        assert(append::bystander(s3, sb, dir_num, d3, p));
    }
    assert(append::bystander(s3, sb, dir_num, d3, fresh));
    assert(block_device::block_at(after, bs, fresh) == Ok::<Seq<u8>, BlockDeviceError>(data));
    lemma_more_entries(after, j, before, i, sb, 0, n, fresh, data, e);
}

/// What extending a directory leaves alone: where the groups lie, the other
/// records in the block of its inode, and all that it does not hold.
#[verifier::rlimit(100)]
proof fn lemma_extended_frame(
    st: FsState,
    sb: Superblock,
    dir_num: u32,
    d: nat,
    name: Seq<u8>,
    num: u32,
    file_type: u8,
    log: Seq<u64>,
    after: Seq<u8>,
)
    requires
        sound_dir_file(st, sb, dir_num, d),
        append::clear_of(st, sb, dir_num, d, log),
        tree::end_of(volume::extents_now(st, sb, dir_num)) < tree::LOGICAL_END,
        dir_write::extended(
            st,
            sb,
            st.gdt,
            dir_num,
            volume::inode_now(st, sb, dir_num),
            name,
            num,
            file_type,
        ).1 is Ok,
        volume::sees(
            dir_write::extended(
                st,
                sb,
                st.gdt,
                dir_num,
                volume::inode_now(st, sb, dir_num),
                name,
                num,
                file_type,
            ).0,
            sb.block_size,
            log,
            after,
        ),
    ensures
        volume::same_layout(
            st.gdt,
            dir_write::extended(
                st,
                sb,
                st.gdt,
                dir_num,
                volume::inode_now(st, sb, dir_num),
                name,
                num,
                file_type,
            ).0.gdt,
        ),
        volume::record_changed_on(st, after, sb, dir_num),
        forall|b: u64| #![trigger block_device::block_at(after, sb.block_size, b)]
            append::foreign(st, sb, dir_num, d, b) && !log.contains(b) ==> block_device::block_at(
                after,
                sb.block_size,
                b,
            ) == fs_state::fetched(st.disk, st.txn.blocks, sb.block_size, b),
{
    let bs = sb.block_size;
    let i = volume::inode_now(st, sb, dir_num);
    let t = volume::table_block(st.gdt, sb, dir_num);
    let data = dir_write::with_dirent(
        bytes::zeros(bs as int),
        0,
        num,
        name,
        file_type,
        dir_write::coded_len(bs),
    );
    assert(data.len() == bs) by {
        broadcast use bytes::lemma_put_len;

    }
    let hint = dir_write::growth_hint(st.disk, sb, i)->Ok_0;
    let (s1, r1) = block_alloc::allocated(st, sb, 1, hint);
    let fresh = r1->Ok_0;
    let s2 = fs_state::pin(s1, fresh, data);
    lemma_pinned_ready(st, sb, dir_num, d, hint, data);
    volume::lemma_allocated(st, sb, 1, hint);
    let s3 = extent_write::appended(s2, sb, dir_num, fresh, 1).0;
    let d3 = append::law_appended(s2, sb, dir_num, d, fresh, 1);
    append::lemma_later(st, s2, s3, sb);
    let u = InodeUpdate { size: Some((i.size + bs) as u64), ..inode_write::no_update() };
    lemma_clear_grown(st, s2, s3, sb, dir_num, d, d3, fresh, log);
    if log.contains(t) {
        assert(append::bystander(st, sb, dir_num, d, t));
    }
    volume::lemma_update_shows(s3, sb, st.gdt, dir_num, u, log, after);
    assert(block_device::block_at(s1.disk, bs, t) == block_device::block_at(st.disk, bs, t));
    let x = block_device::block_at(st.disk, bs, t)->Ok_0;
    let y = block_device::block_at(s3.disk, bs, t)->Ok_0;
    let z = block_device::block_at(after, bs, t)->Ok_0;
    let o = inode::slot_offset(sb, dir_num);
    assert(volume::same_beside(y, x, sb, dir_num));
    assert(volume::same_beside(z, y, sb, dir_num));
    assert forall|j: int| 0 <= j < z.len() && !(o <= j < o + 128) implies #[trigger] z[j]
        == x[j] by {
        assert(y[j] == x[j]);
    }
    assert forall|b: u64| #![trigger block_device::block_at(after, bs, b)]
        append::foreign(st, sb, dir_num, d, b) && !log.contains(b) implies block_device::block_at(
        after,
        bs,
        b,
    ) == fs_state::fetched(st.disk, st.txn.blocks, bs, b) by {
        assert(append::bystander(st, sb, dir_num, d, b));
        assert(append::bystander(s2, sb, dir_num, d, b));
        assert(append::bystander(s3, sb, dir_num, d3, b));
    }
}

/// What grew by a new block is still clear of the journal.
pub proof fn lemma_clear_grown(
    st: FsState,
    s2: FsState,
    s3: FsState,
    sb: Superblock,
    num: u32,
    d: nat,
    d3: nat,
    fresh: u64,
    log: Seq<u64>,
)
    requires
        append::clear_of(st, sb, num, d, log),
        !volume::used(st, sb, fresh),
        volume::extents_now(s2, sb, num) == volume::extents_now(st, sb, num),
        forall|b: u64| #[trigger]
            append::bystander(st, sb, num, d, b) ==> append::bystander(s2, sb, num, d, b),
        append::grew(s2, s3, sb, num, d, d3, fresh, 1),
    ensures
        append::clear_of(s3, sb, num, d3, log),
        !log.contains(fresh),
{
    let v = volume::extents_now(s2, sb, num);
    let w = volume::extents_now(s3, sb, num);
    assert forall|b: u64| #[trigger] log.contains(b) implies append::bystander(
        s3,
        sb,
        num,
        d3,
        b,
    ) && append::unmapped(w, b) && b != fresh by {
        assert(append::bystander(st, sb, num, d, b));
        assert(append::bystander(s2, sb, num, d, b));
        assert(append::unmapped(v, b));
        assert forall|l: u64| (#[trigger] extent::mapped(w, l)) != Some(b) by {
            assert(extent::mapped(v, l) != Some(b));
        }
    }
}

proof fn lemma_grown_blocks(size: int, bs: int)
    requires
        bs > 0,
        size >= 0,
        size % bs == 0,
    ensures
        bytes::ceil_div(size, bs) == size / bs,
        bytes::ceil_div(size + bs, bs) == size / bs + 1,
{
    vstd::arithmetic::div_mod::lemma_fundamental_div_mod(size, bs);
    let q = size / bs;
    assert(size + bs == bs * (q + 1)) by (nonlinear_arith)
        requires
            size == bs * q,
    ;
    vstd::arithmetic::div_mod::lemma_fundamental_div_mod_converse(size + bs, bs, q + 1, 0);
}

/// The directory of a sound file is sound as a directory.
pub proof fn lemma_sound_dir(st: FsState, sb: Superblock, num: u32, d: nat, log: Seq<u64>)
    requires
        volume::sound_file(st, sb, num, d),
        append::clear_of(st, sb, num, d, log),
    ensures
        sound_dir(st, sb, volume::inode_now(st, sb, num), d, log),
        dir_write::dir_inode(st, sb, st.gdt, num) is Ok ==> dir_write::dir_inode(
            st,
            sb,
            st.gdt,
            num,
        )->Ok_0 == volume::inode_now(st, sb, num),
{
    let i = volume::inode_now(st, sb, num);
    volume::lemma_extents(st, sb, num, d);
    volume::lemma_slot_read(st, sb, num);
    assert forall|b: u64| #[trigger]
        tree::within(st.disk, sb.block_size, i.block_data, d, b) implies volume::agrees(
        st,
        sb.block_size,
        b,
    ) && !log.contains(b) by {
        assert(volume::node_block(st, sb, num, d, b));
    }
    let v = volume::extents_now(st, sb, num);
    assert forall|l: u64| (#[trigger] extent::mapped(v, l)) is Some implies !tree::within(
        st.disk,
        sb.block_size,
        i.block_data,
        d,
        extent::mapped(v, l)->Some_0,
    ) && !log.contains(extent::mapped(v, l)->Some_0) by {
        assert(!volume::node_block(st, sb, num, d, extent::mapped(v, l)->Some_0));
        if log.contains(extent::mapped(v, l)->Some_0) {
            assert(append::unmapped(v, extent::mapped(v, l)->Some_0));
        }
    }
    reveal(volume::agrees);
}

/// A name that was put into a directory is listed, and all that was listed still
/// is. Gives its place in the list.
#[verifier::rlimit(100)]
pub proof fn law_entered(
    st: FsState,
    sb: Superblock,
    dir_num: u32,
    d: nat,
    name: Seq<char>,
    num: u32,
    file_type: u8,
    log: Seq<u64>,
    before: Seq<u8>,
    after: Seq<u8>,
) -> (k: int)
    requires
        sound_dir_file(st, sb, dir_num, d),
        append::clear_of(st, sb, dir_num, d, log),
        volume::inode_now(st, sb, dir_num).size + sb.block_size <= u64::MAX,
        tree::end_of(volume::extents_now(st, sb, dir_num)) < tree::LOGICAL_END,
        num != 0,
        dir_write::name_bytes(name).len() <= 255,
        dir_write::inserted(
            st,
            sb,
            st.gdt,
            dir_num,
            dir_write::name_bytes(name),
            num,
            file_type,
        ).1 is Ok,
        volume::sees(st, sb.block_size, log, before),
        volume::sees(
            dir_write::inserted(
            st,
            sb,
            st.gdt,
            dir_num,
            dir_write::name_bytes(name),
            num,
            file_type,
        ).0,
            sb.block_size,
            log,
            after,
        ),
        dir::dir_entries(before, sb, volume::inode_now(st, sb, dir_num)) is Ok,
    ensures
        ({
            let v = dir::dir_entries(before, sb, volume::inode_now(st, sb, dir_num))->Ok_0;
            let r = inode::inode_at(after, sb, st.gdt, dir_num);
            &&& 0 <= k <= v.len()
            &&& volume::same_layout(
                st.gdt,
                dir_write::inserted(
            st,
            sb,
            st.gdt,
            dir_num,
            dir_write::name_bytes(name),
            num,
            file_type,
        ).0.gdt,
            )
            &&& r is Ok
            &&& dir::dir_entries(after, sb, r->Ok_0) == Ok::<Seq<EntryView>, DirError>(
                v.insert(
                    k,
                    EntryView { inode_num: num, name, file_type },
                ),
            )
            &&& volume::record_changed_on(st, after, sb, dir_num)
            &&& forall|b: u64| #![trigger block_device::block_at(after, sb.block_size, b)]
                append::foreign(
                    st,
                    sb,
                    dir_num,
                    d,
                    b,
                ) && !log.contains(b) ==> block_device::block_at(
                    after,
                    sb.block_size,
                    b,
                ) == fs_state::fetched(st.disk, st.txn.blocks, sb.block_size, b)
        }),
{
    let bytes = dir_write::name_bytes(name);
    let i = volume::inode_now(st, sb, dir_num);
    let n = dir::dir_blocks(sb, i);
    lemma_sound_dir(st, sb, dir_num, d, log);
    let (s, r) = dir_write::inserted_from(st, sb, i, bytes, num, file_type, 0, n);
    let v = dir::dir_entries(before, sb, i)->Ok_0;
    text::law_encoded_is_read(name);
    if r == Ok::<bool, DirWriteError>(true) {
        let k = law_inserted(st, sb, i, d, bytes, num, file_type, log, before, after);
        lemma_dir_blocks(sb, i);
        lemma_places(st, sb, i, d, log, st.disk, n);
        let (m, data) = lemma_inserted_where(st, sb, i, bytes, num, file_type, 0, n);
        let p = place(st.disk, sb, i, m)->Ok_0->Some_0;
        data::lemma_found(st, sb, dir_num, d, m as u64);
        assert(extent::mapped(volume::extents_now(st, sb, dir_num), m as u64) == Some(p));
        volume::lemma_slot_seen(st, sb, dir_num, p, data, log, after);
        let t = volume::table_block(st.gdt, sb, dir_num);
        if log.contains(t) {
            assert(append::bystander(st, sb, dir_num, d, t));
        }
        assert(block_device::block_at(after, sb.block_size, t) == block_device::block_at(
            st.disk,
            sb.block_size,
            t,
        )) by {
            writer::lemma_pin(st.txn.blocks, p, data, t);
            reveal(volume::agrees);
        }
        assert forall|b: u64| #![trigger block_device::block_at(after, sb.block_size, b)]
            append::foreign(
                st,
                sb,
                dir_num,
                d,
                b,
            ) && !log.contains(b) implies block_device::block_at(
            after,
            sb.block_size,
            b,
        ) == fs_state::fetched(st.disk, st.txn.blocks, sb.block_size, b) by {
            writer::lemma_pin(st.txn.blocks, p, data, b);
        }
        k
    } else {
        lemma_not_inserted(st, sb, i, bytes, num, file_type, 0, n);
        law_extended(st, sb, dir_num, d, bytes, num, file_type, log, before, after);
        lemma_extended_frame(st, sb, dir_num, d, bytes, num, file_type, log, after);
        let e = EntryView { inode_num: num, name: text::text_of(bytes), file_type };
        assert(v.insert(v.len() as int, e) =~= v.push(e));
        v.len() as int
    }
}

/// A name that was added to a directory is listed, and all that was listed
/// still is. Gives its place in the list.
pub proof fn law_added(
    st: FsState,
    sb: Superblock,
    dir_num: u32,
    d: nat,
    name: Seq<char>,
    num: u32,
    file_type: u8,
    log: Seq<u64>,
    before: Seq<u8>,
    after: Seq<u8>,
) -> (k: int)
    requires
        sound_dir_file(st, sb, dir_num, d),
        append::clear_of(st, sb, dir_num, d, log),
        volume::inode_now(st, sb, dir_num).size + sb.block_size <= u64::MAX,
        tree::end_of(volume::extents_now(st, sb, dir_num)) < tree::LOGICAL_END,
        num != 0,
        dir_write::added(st, sb, st.gdt, dir_num, name, num, file_type).1 is Ok,
        volume::sees(st, sb.block_size, log, before),
        volume::sees(
            dir_write::added(st, sb, st.gdt, dir_num, name, num, file_type).0,
            sb.block_size,
            log,
            after,
        ),
        dir::dir_entries(before, sb, volume::inode_now(st, sb, dir_num)) is Ok,
    ensures
        ({
            let v = dir::dir_entries(before, sb, volume::inode_now(st, sb, dir_num))->Ok_0;
            let r = inode::inode_at(after, sb, st.gdt, dir_num);
            &&& 0 <= k <= v.len()
            &&& volume::same_layout(
                st.gdt,
                dir_write::added(st, sb, st.gdt, dir_num, name, num, file_type).0.gdt,
            )
            &&& r is Ok
            &&& dir::dir_entries(after, sb, r->Ok_0) == Ok::<Seq<EntryView>, DirError>(
                v.insert(
                    k,
                    EntryView { inode_num: num, name, file_type },
                ),
            )
            &&& volume::record_changed_on(st, after, sb, dir_num)
            &&& forall|b: u64| #![trigger block_device::block_at(after, sb.block_size, b)]
                append::foreign(
                    st,
                    sb,
                    dir_num,
                    d,
                    b,
                ) && !log.contains(b) ==> block_device::block_at(
                    after,
                    sb.block_size,
                    b,
                ) == fs_state::fetched(st.disk, st.txn.blocks, sb.block_size, b)
        }),
{
    law_entered(st, sb, dir_num, d, name, num, file_type, log, before, after)
}

/// A directory that a name was put into is sound still, as the transaction sees
/// its inode. Gives the depth of its tree.
#[verifier::rlimit(100)]
pub proof fn lemma_entered_sound(
    st: FsState,
    sb: Superblock,
    dir_num: u32,
    d: nat,
    name: Seq<u8>,
    num: u32,
    file_type: u8,
    log: Seq<u64>,
) -> (d2: nat)
    requires
        sound_dir_file(st, sb, dir_num, d),
        append::clear_of(st, sb, dir_num, d, log),
        tree::end_of(volume::extents_now(st, sb, dir_num)) < tree::LOGICAL_END,
        dir_write::inserted(st, sb, st.gdt, dir_num, name, num, file_type).1 is Ok,
    ensures
        ({
            let s = dir_write::inserted(st, sb, st.gdt, dir_num, name, num, file_type).0;
            let r = inode::inode_in_txn(s.disk, sb, st.gdt, s.txn.blocks, dir_num);
            let w = extent::tree_leaves(
                s.disk,
                sb.block_size,
                r->Ok_0.block_data,
                block_device::sectors(s.disk) as nat,
            )->Ok_0;
            &&& r is Ok
            &&& sound_dir(s, sb, r->Ok_0, d2, log)
            &&& volume::sound_volume(s, sb)
            &&& volume::later(st, s, sb)
            &&& append::unmapped(w, volume::table_block(st.gdt, sb, dir_num))
            &&& forall|b: u64| #[trigger]
                tree::within(s.disk, sb.block_size, r->Ok_0.block_data, d2, b)
                    ==> volume::kept_apart(s, sb, dir_num, b)
            &&& forall|l: u64|
                (#[trigger] extent::mapped(w, l)) is Some ==> volume::kept_apart(
                    s,
                    sb,
                    dir_num,
                    extent::mapped(w, l)->Some_0,
                )
            &&& forall|b: u64| #[trigger]
                append::foreign(st, sb, dir_num, d, b) ==> !tree::within(
                    s.disk,
                    sb.block_size,
                    r->Ok_0.block_data,
                    d2,
                    b,
                ) && append::unmapped(w, b)
        }),
{
    let bs = sb.block_size;
    let i = volume::inode_now(st, sb, dir_num);
    let n = dir::dir_blocks(sb, i);
    let t = volume::table_block(st.gdt, sb, dir_num);
    lemma_sound_dir(st, sb, dir_num, d, log);
    volume::lemma_extents(st, sb, dir_num, d);
    volume::lemma_slot_read(st, sb, dir_num);
    let o = inode::slot_offset(sb, dir_num);
    let s = dir_write::inserted(st, sb, st.gdt, dir_num, name, num, file_type).0;
    let r = dir_write::inserted_from(st, sb, i, name, num, file_type, 0, n).1;
    if r == Ok::<bool, DirWriteError>(true) {
        lemma_dir_blocks(sb, i);
        lemma_places(st, sb, i, d, log, st.disk, n);
        let (m, data) = lemma_inserted_where(st, sb, i, name, num, file_type, 0, n);
        let p = place(st.disk, sb, i, m)->Ok_0->Some_0;
        data::lemma_found(st, sb, dir_num, d, m as u64);
        assert(extent::mapped(volume::extents_now(st, sb, dir_num), m as u64) == Some(p));
        assert(volume::kept_apart(st, sb, dir_num, p));
        writer::lemma_pin(st.txn.blocks, p, data, t);
        reveal(volume::agrees);
        assert forall|b: u64| #[trigger]
            tree::within(s.disk, bs, i.block_data, d, b) implies volume::agrees(s, bs, b)
            && !log.contains(b) && volume::node_block(st, sb, dir_num, d, b) by {
            assert(volume::agrees(st, bs, b));
            writer::lemma_pin(st.txn.blocks, p, data, b);
        }
        assert forall|b: u64| #[trigger] volume::used(s, sb, b) == volume::used(st, sb, b) by {
            reveal(volume::used);
        }
        volume::lemma_volume_kept(st, s, sb);
        d
    } else {
        lemma_not_inserted(st, sb, i, name, num, file_type, 0, n);
        let hint = dir_write::growth_hint(st.disk, sb, i)->Ok_0;
        let data = dir_write::with_dirent(
            bytes::zeros(bs as int),
            0,
            num,
            name,
            file_type,
            dir_write::coded_len(bs),
        );
        assert(data.len() == bs) by {
            broadcast use bytes::lemma_put_len;

        }
        let (s1, r1) = block_alloc::allocated(st, sb, 1, hint);
        let fresh = r1->Ok_0;
        let s2 = fs_state::pin(s1, fresh, data);
        lemma_pinned_ready(st, sb, dir_num, d, hint, data);
        let s3 = extent_write::appended(s2, sb, dir_num, fresh, 1).0;
        let d3 = append::law_appended(s2, sb, dir_num, d, fresh, 1);
        append::lemma_later(st, s2, s3, sb);
        lemma_clear_grown(st, s2, s3, sb, dir_num, d, d3, fresh, log);
        lemma_sound_dir(s3, sb, dir_num, d3, log);
        volume::lemma_extents(s3, sb, dir_num, d3);
        volume::lemma_slot_read(s3, sb, dir_num);
        let u = InodeUpdate { size: Some((i.size + bs) as u64), ..inode_write::no_update() };
        let x = block_device::block_at(s3.disk, bs, t)->Ok_0;
        let rec = x.subrange(o, o + 128);
        let y = bytes::put(x, o, inode_write::updated_record(rec, u));
        inode_write::lemma_updated_record(rec, u);
        reveal(volume::agrees);
        assert(s == fs_state::pin(s3, t, y));
        writer::lemma_pin(s3.txn.blocks, t, y, t);
        assert(y.subrange(o, o + 128) =~= inode_write::updated_record(rec, u));
        let i3 = volume::inode_now(s3, sb, dir_num);
        assert forall|b: u64| #[trigger]
            tree::within(s.disk, bs, i3.block_data, d3, b) implies volume::agrees(s, bs, b)
            && !log.contains(b) by {
            assert(volume::node_block(s3, sb, dir_num, d3, b));
            assert(volume::kept_apart(s3, sb, dir_num, b));
            assert(volume::agrees(s3, bs, b));
            writer::lemma_pin(s3.txn.blocks, t, y, b);
        }
        assert forall|b: u64| #[trigger] volume::used(s, sb, b) == volume::used(s3, sb, b) by {
            reveal(volume::used);
        }
        volume::lemma_volume_kept(s3, s, sb);
        assert forall|b: u64| #[trigger] tree::within(s.disk, bs, i3.block_data, d3, b) implies
            volume::kept_apart(s, sb, dir_num, b) by {
            assert(volume::node_block(s3, sb, dir_num, d3, b));
        }
        let w = volume::extents_now(s3, sb, dir_num);
        assert forall|b: u64| #[trigger] append::foreign(st, sb, dir_num, d, b) implies
            !tree::within(s.disk, bs, i3.block_data, d3, b) && append::unmapped(w, b) by {
            assert(append::bystander(st, sb, dir_num, d, b));
            assert(append::bystander(s2, sb, dir_num, d, b));
            assert(append::bystander(s3, sb, dir_num, d3, b));
            assert(!volume::node_block(s3, sb, dir_num, d3, b));
            assert forall|l: u64| (#[trigger] extent::mapped(w, l)) != Some(b) by {
                assert(extent::mapped(volume::extents_now(st, sb, dir_num), l) != Some(b));
            }
        }
        d3
    }
}

/// Putting a name into a directory leaves alone what the directory does not hold,
/// and the other records in the block of its inode.
#[verifier::rlimit(100)]
pub proof fn lemma_entered_frame(
    st: FsState,
    sb: Superblock,
    dir_num: u32,
    d: nat,
    name: Seq<u8>,
    num: u32,
    file_type: u8,
)
    requires
        sound_dir_file(st, sb, dir_num, d),
        tree::end_of(volume::extents_now(st, sb, dir_num)) < tree::LOGICAL_END,
        dir_write::inserted(st, sb, st.gdt, dir_num, name, num, file_type).1 is Ok,
    ensures
        ({
            let s = dir_write::inserted(st, sb, st.gdt, dir_num, name, num, file_type).0;
            let t = volume::table_block(st.gdt, sb, dir_num);
            let x = fs_state::fetched(s.disk, s.txn.blocks, sb.block_size, t);
            &&& volume::same_layout(st.gdt, s.gdt)
            &&& volume::record_changed(st, s, sb, dir_num)
            &&& x is Ok
            &&& volume::same_beside(
                x->Ok_0,
                block_device::block_at(st.disk, sb.block_size, t)->Ok_0,
                sb,
                dir_num,
            )
            &&& forall|b: u64| #[trigger]
                append::foreign(st, sb, dir_num, d, b) ==> volume::untouched(
                    st,
                    s,
                    sb.block_size,
                    b,
                )
        }),
{
    let bs = sb.block_size;
    let i = volume::inode_now(st, sb, dir_num);
    let n = dir::dir_blocks(sb, i);
    let t = volume::table_block(st.gdt, sb, dir_num);
    let log = Seq::<u64>::empty();
    assert(append::clear_of(st, sb, dir_num, d, log));
    lemma_sound_dir(st, sb, dir_num, d, log);
    volume::lemma_slot_read(st, sb, dir_num);
    let o = inode::slot_offset(sb, dir_num);
    let s = dir_write::inserted(st, sb, st.gdt, dir_num, name, num, file_type).0;
    let r = dir_write::inserted_from(st, sb, i, name, num, file_type, 0, n).1;
    reveal(volume::agrees);
    if r == Ok::<bool, DirWriteError>(true) {
        lemma_dir_blocks(sb, i);
        lemma_places(st, sb, i, d, log, st.disk, n);
        let (m, data) = lemma_inserted_where(st, sb, i, name, num, file_type, 0, n);
        let p = place(st.disk, sb, i, m)->Ok_0->Some_0;
        data::lemma_found(st, sb, dir_num, d, m as u64);
        assert(extent::mapped(volume::extents_now(st, sb, dir_num), m as u64) == Some(p));
        assert(volume::kept_apart(st, sb, dir_num, p));
        writer::lemma_pin(st.txn.blocks, p, data, t);
        assert forall|b: u64| #[trigger] append::foreign(
            st,
            sb,
            dir_num,
            d,
            b,
        ) implies volume::untouched(
            st,
            s,
            bs,
            b,
        ) by {
            writer::lemma_pin(st.txn.blocks, p, data, b);
        }
    } else {
        lemma_not_inserted(st, sb, i, name, num, file_type, 0, n);
        let hint = dir_write::growth_hint(st.disk, sb, i)->Ok_0;
        let data = dir_write::with_dirent(
            bytes::zeros(bs as int),
            0,
            num,
            name,
            file_type,
            dir_write::coded_len(bs),
        );
        assert(data.len() == bs) by {
            broadcast use bytes::lemma_put_len;

        }
        let (s1, r1) = block_alloc::allocated(st, sb, 1, hint);
        let fresh = r1->Ok_0;
        let s2 = fs_state::pin(s1, fresh, data);
        lemma_pinned_ready(st, sb, dir_num, d, hint, data);
        volume::lemma_allocated(st, sb, 1, hint);
        let s3 = extent_write::appended(s2, sb, dir_num, fresh, 1).0;
        let d3 = append::law_appended(s2, sb, dir_num, d, fresh, 1);
        append::lemma_later(st, s2, s3, sb);
        volume::lemma_slot_read(s3, sb, dir_num);
        let u = InodeUpdate { size: Some((i.size + bs) as u64), ..inode_write::no_update() };
        let x = block_device::block_at(s3.disk, bs, t)->Ok_0;
        let rec = x.subrange(o, o + 128);
        let y = bytes::put(x, o, inode_write::updated_record(rec, u));
        inode_write::lemma_updated_record(rec, u);
        assert(s == fs_state::pin(s3, t, y));
        writer::lemma_pin(s3.txn.blocks, t, y, t);
        assert(block_device::block_at(s1.disk, bs, t) == block_device::block_at(st.disk, bs, t));
        let w = block_device::block_at(st.disk, bs, t)->Ok_0;
        assert(volume::same_beside(x, w, sb, dir_num));
        assert forall|j: int| 0 <= j < y.len() && !(o <= j < o + 128) implies #[trigger] y[j]
            == w[j] by {
            assert(x[j] == w[j]);
        }
        assert forall|b: u64| #[trigger] append::foreign(
            st,
            sb,
            dir_num,
            d,
            b,
        ) implies volume::untouched(
            st,
            s,
            bs,
            b,
        ) by {
            assert(append::bystander(st, sb, dir_num, d, b));
            assert(append::bystander(s2, sb, dir_num, d, b));
            assert(append::bystander(s3, sb, dir_num, d3, b));
            writer::lemma_pin(s3.txn.blocks, t, y, b);
        }
    }
}

/// Where there is no room nothing changes.
pub proof fn lemma_not_inserted(
    st: FsState,
    sb: Superblock,
    i: InodeView,
    name: Seq<u8>,
    num: u32,
    file_type: u8,
    l: int,
    n: int,
)
    ensures
        dir_write::inserted_from(st, sb, i, name, num, file_type, l, n).1 == Ok::<
            bool,
            DirWriteError,
        >(false) ==> dir_write::inserted_from(st, sb, i, name, num, file_type, l, n).0 == st,
    decreases n - l,
{
    if l < n {
        lemma_not_inserted(st, sb, i, name, num, file_type, l + 1, n);
    }
}

/// A file that got another name counts one more link.
#[verifier::rlimit(60)]
pub proof fn law_linked(
    st: FsState,
    sb: Superblock,
    gdt: Seq<GroupDesc>,
    num: u32,
    dir_num: u32,
    name: Seq<char>,
)
    requires
        sb.wf(),
        dir_write::linked(st, sb, gdt, num, dir_num, name).1 is Ok,
    ensures
        ({
            let s = dir_write::linked(st, sb, gdt, num, dir_num, name).0;
            let before = inode::inode_at(st.disk, sb, gdt, num);
            let after = inode::inode_in_txn(s.disk, sb, gdt, s.txn.blocks, num);
            &&& before is Ok
            &&& !before->Ok_0.is_dir()
            &&& after is Ok ==> after->Ok_0.links_count == before->Ok_0.links_count + 1
        }),
{
    let i = inode::inode_at(st.disk, sb, gdt, num)->Ok_0;
    let s1 = dir_write::added(st, sb, gdt, dir_num, name, num, dir_write::link_type(i)).0;
    let u = InodeUpdate {
        links_count: Some((i.links_count + 1) as u16),
        ..inode_write::no_update()
    };
    vstd::arithmetic::div_mod::lemma_div_pos_is_pos(num - 1, sb.inodes_per_group as int);
    inode_write::law_update_then_read(s1.disk, sb, gdt, s1.txn, num, u, num);
}

} // verus!
