//! What the bytes of trees, directories and the journal mean.
use vstd::prelude::*;
use super::layout;
use super::tree;
use crate::bytes;
use crate::dir;
use crate::extent;
use crate::extent::ExtentLeaf;
use crate::file;
use crate::file::FileError;
use crate::fsp_impl::open_close;
use crate::inode::InodeView;
use crate::journal::replay;
use crate::journal::replay::block_type;
use crate::journal::replay::tag_flags;
use crate::text;

verus! {

/// The header of a node of a tree stands in its first bytes, and entry `i` behind those of
/// the entries in front of it, in 12 bytes each.
pub proof fn law_node(s: Seq<u8>, i: int)
    ensures
        extent::header(s).eh_magic == layout::little(s, 0, 2),
        extent::header(s).eh_entries == layout::little(s, 2, 2),
        extent::header(s).eh_max == layout::little(s, 4, 2),
        extent::header(s).eh_depth == layout::little(s, 6, 2),
        0 <= i < layout::little(s, 2, 2) ==> extent::node_leaves(s)[i] == extent::leaf_at(
            s,
            12 + 12 * i,
        ) && extent::node_idxs(s)[i] == extent::idx_at(s, 12 + 12 * i),
        extent::node_fault(s) is None ==> s.len() >= 12 + 12 * layout::little(s, 2, 2)
            && layout::little(s, 0, 2) == 0xF30A && layout::little(s, 6, 2) <= 5,
        s.len() >= 12 + 12 * layout::little(s, 2, 2) && layout::little(s, 0, 2) == 0xF30A
            && layout::little(s, 6, 2) <= 5 ==> extent::node_fault(s) is None,
{
    layout::law_numbers(s, 0);
    layout::law_numbers(s, 2);
    layout::law_numbers(s, 4);
    layout::law_numbers(s, 6);
}

/// An extent maps the logical blocks from the number at its start on. The number behind that
/// says how many, and above 32768 that they hold no data yet; behind it stand the high
/// half of the first physical block, and the low half.
pub proof fn law_extent(s: Seq<u8>, off: int)
    ensures
        ({
            let x = extent::leaf_at(s, off);
            let n = layout::little(s, off + 4, 2);
            &&& x.ee_block == layout::little(s, off, 4)
            &&& x.phys() == layout::little(s, off + 8, 4) + 0x1_0000_0000 * layout::little(
                s,
                off + 6,
                2,
            )
            &&& x.uninit() <==> n > 32768
            &&& x.blocks() == (if n > 32768 {
                n - 32768
            } else {
                n
            })
        }),
{
    layout::law_numbers(s, off);
    layout::law_numbers(s, off + 4);
    layout::law_numbers(s, off + 6);
    layout::law_numbers(s, off + 8);
}

/// An entry of an inner node leads to the block whose low half stands behind its first logical
/// block, and whose high half behind that.
pub proof fn law_index(s: Seq<u8>, off: int)
    ensures
        extent::idx_at(s, off).ei_block == layout::little(s, off, 4),
        extent::idx_at(s, off).child() == layout::little(s, off + 4, 4) + 0x1_0000_0000
            * layout::little(s, off + 8, 2),
{
    layout::law_numbers(s, off);
    layout::law_numbers(s, off + 4);
    layout::law_numbers(s, off + 8);
}

/// Of extents in order, the one that spans a logical block says where it lies: as far behind
/// its first physical block as the logical block is behind its first. A block that none
/// spans, or one without data, is a hole.
pub proof fn law_extent_maps(v: Seq<ExtentLeaf>, lo: int, hi: int, l: u64, i: int)
    requires
        tree::in_range(v, lo, hi),
        0 <= i < v.len(),
        v[i].ee_block <= l < v[i].ee_block + v[i].blocks(),
    ensures
        v[i].ee_len <= 32768 ==> extent::mapped(v, l) == Some(
            (v[i].phys() + (l - v[i].ee_block)) as u64,
        ),
        v[i].ee_len > 32768 ==> extent::mapped(v, l) is None,
{
    if v[i].ee_len <= 32768 {
        tree::lemma_mapped_some(v, lo, hi, l, i);
    } else {
        assert forall|j: int| 0 <= j < v.len() implies !(#[trigger] v[j]).covers(l) by {
            if j < i {
                assert(v[j].ee_block + v[j].blocks() <= v[i].ee_block);
            } else if i < j {
                assert(v[i].ee_block + v[i].blocks() <= v[j].ee_block);
            }
        }
        tree::lemma_mapped_none(v, l);
    }
}

/// A logical block that no extent spans is a hole.
pub proof fn law_hole(v: Seq<ExtentLeaf>, l: u64)
    requires
        forall|i: int|
            0 <= i < v.len() ==> !((#[trigger] v[i]).ee_block <= l < v[i].ee_block
                + v[i].blocks()),
    ensures
        extent::mapped(v, l) is None,
{
    assert forall|j: int| 0 <= j < v.len() implies !(#[trigger] v[j]).covers(l) by {
        assert(!(v[j].ee_block <= l < v[j].ee_block + v[j].blocks()));
    }
    tree::lemma_mapped_none(v, l);
}

/// An entry of a directory: the inode, the length of the entry, that of the name, the type,
/// and the name.
pub proof fn law_dir_entry(b: Seq<u8>, pos: int, name: Seq<char>)
    requires
        0 <= pos,
        pos + 8 + b[pos + 6] <= b.len(),
        8 + b[pos + 6] <= layout::little(b, pos + 4, 2),
        vstd::utf8::encode_utf8(name) == b.subrange(pos + 8, pos + 8 + b[pos + 6]),
    ensures
        dir::entry_at(b, pos).inode_num == layout::little(b, pos, 4),
        dir::entry_at(b, pos).name == name,
        dir::entry_at(b, pos).file_type == b[pos + 7],
{
    layout::law_numbers(b, pos);
    layout::law_numbers(b, pos + 4);
    text::law_encoded_is_read(name);
}

/// An entry that is in use is listed, in front of those behind it in its block; one of inode 0
/// is not. The next entry starts where it ends.
pub proof fn law_dir_walk(b: Seq<u8>, pos: int)
    requires
        0 <= pos,
        pos + 8 <= b.len(),
        8 <= layout::little(b, pos + 4, 2) <= b.len() - pos,
        dir::block_entries(b, pos) is Ok,
    ensures
        dir::block_entries(b, pos + layout::little(b, pos + 4, 2)) is Ok,
        layout::little(b, pos, 4) == 0 ==> dir::block_entries(b, pos) == dir::block_entries(
            b,
            pos + layout::little(b, pos + 4, 2),
        ),
        layout::little(b, pos, 4) != 0 ==> dir::block_entries(b, pos)->Ok_0 == seq![
            dir::entry_at(b, pos),
        ] + dir::block_entries(b, pos + layout::little(b, pos + 4, 2))->Ok_0,
{
    layout::law_numbers(b, pos);
    layout::law_numbers(b, pos + 4);
}

/// The target of a short link stands in its inode.
pub proof fn law_short_link(i: InodeView, target: Seq<char>)
    requires
        i.block_data.len() == 60,
        i.size == vstd::utf8::encode_utf8(target).len(),
        i.size < 60,
        forall|k: int|
            0 <= k < i.size ==> #[trigger] i.block_data[k] == vstd::utf8::encode_utf8(target)[k],
    ensures
        file::symlink_target(i) == Ok::<Seq<char>, FileError>(target),
{
    text::law_encoded_is_read(target);
    assert(i.block_data.take(i.size as int) =~= vstd::utf8::encode_utf8(target));
}

/// Sockets, pipes and devices are not opened.
pub proof fn law_special(mode: u16)
    ensures
        open_close::is_special(mode) <==> mode / 0x1000 == 1 || mode / 0x1000 == 2 || mode / 0x1000
            == 6 || mode / 0x1000 == 12,
{
    assert(mode & 0xF000 == 0x1000 <==> mode / 0x1000 == 1) by (bit_vector);
    assert(mode & 0xF000 == 0x2000 <==> mode / 0x1000 == 2) by (bit_vector);
    assert(mode & 0xF000 == 0x6000 <==> mode / 0x1000 == 6) by (bit_vector);
    assert(mode & 0xF000 == 0xC000 <==> mode / 0x1000 == 12) by (bit_vector);
}

/// A block of the journal's log starts with the magic number, its kind and the number of its
/// transaction. The kinds are 1 for a descriptor, 2 for a commit, and 5 for revoked blocks.
pub proof fn law_log_block(b: Seq<u8>, seq: u32)
    ensures
        replay::is_block(b, block_type::DESCRIPTOR, seq) <==> layout::big(b, 0, 4) == 0xC03B3998
            && layout::big(b, 4, 4) == 1 && layout::big(b, 8, 4) == seq,
        replay::is_block(b, block_type::COMMIT, seq) <==> layout::big(b, 0, 4) == 0xC03B3998
            && layout::big(b, 4, 4) == 2 && layout::big(b, 8, 4) == seq,
        replay::is_block(b, block_type::REVOKE, seq) <==> layout::big(b, 0, 4) == 0xC03B3998
            && layout::big(b, 4, 4) == 5 && layout::big(b, 8, 4) == seq,
{
    layout::law_numbers(b, 0);
    layout::law_numbers(b, 4);
    layout::law_numbers(b, 8);
}

/// A tag says where a block goes: the low half of the number, the flags, and the high half,
/// which counts only in a journal with wide numbers. The flags say, from the lowest bit on,
/// that no identifier follows, that the block was deleted, that its first bytes are escaped,
/// and that no tag follows.
pub proof fn law_tag(s: Seq<u8>, off: int)
    ensures
        ({
            let t = replay::tag_at(s, off);
            let flags = layout::big(s, off + 4, 2);
            &&& t.home(false) == layout::big(s, off, 4)
            &&& t.home(true) == layout::big(s, off, 4) + 0x1_0000_0000 * layout::big(s, off + 6, 2)
            &&& t.has(tag_flags::SAME_UUID) <==> flags % 2 == 1
            &&& t.has(tag_flags::DELETED) <==> flags / 2 % 2 == 1
            &&& t.has(tag_flags::ESCAPE) <==> flags / 4 % 2 == 1
            &&& t.has(tag_flags::LAST_TAG) <==> flags / 8 % 2 == 1
        }),
{
    layout::law_numbers(s, off);
    layout::law_numbers(s, off + 4);
    layout::law_numbers(s, off + 6);
    let f = bytes::be16(s, off + 4);
    assert(f & 1u16 != 0 <==> f % 2 == 1) by (bit_vector);
    assert(f & 2u16 != 0 <==> f / 2 % 2 == 1) by (bit_vector);
    assert(f & 4u16 != 0 <==> f / 4 % 2 == 1) by (bit_vector);
    assert(f & 8u16 != 0 <==> f / 8 % 2 == 1) by (bit_vector);
}

/// The numbers of revoked blocks stand behind the first 16 bytes, in 8 bytes each in a journal
/// with wide numbers, and in 4 bytes each in another.
pub proof fn law_revoked_number(b: Seq<u8>, k: int)
    ensures
        replay::number_at(b, k, false) == layout::big(b, 16 + 4 * k, 4),
        replay::number_at(b, k, true) == 0x1_0000_0000 * layout::big(b, 16 + 8 * k, 4)
            + layout::big(b, 20 + 8 * k, 4),
{
    layout::law_numbers(b, 16 + 4 * k);
    layout::law_numbers(b, 16 + 8 * k);
    layout::law_numbers(b, 20 + 8 * k);
}

/// Replacing a character by another keeps all that is not that character, and the length.
pub proof fn law_replaced(s: Seq<char>, from: char, to: char)
    ensures
        text::replaced(s, from, seq![to]).len() == s.len(),
        forall|i: int|
            0 <= i < s.len() ==> #[trigger] text::replaced(s, from, seq![to])[i] == (if s[i]
                == from {
                to
            } else {
                s[i]
            }),
    decreases s.len(),
{
    if s.len() > 0 {
        law_replaced(s.drop_last(), from, to);
    }
}

/// A path of Windows is one of the volume with slashes in place of its backslashes, and the
/// same otherwise.
pub proof fn law_volume_path(file_name: Seq<char>)
    ensures
        crate::fsp_impl::volume_path(file_name).len() == file_name.len(),
        forall|i: int|
            0 <= i < file_name.len() ==> #[trigger] crate::fsp_impl::volume_path(file_name)[i] == (
            if file_name[i] == '\\' {
                '/'
            } else {
                file_name[i]
            }),
{
    reveal_strlit("/");
    assert("/"@ =~= seq!['/']);
    law_replaced(file_name, '\\', '/');
}

/// An entry of a directory takes up the room of its header and its name, filled up to a
/// multiple of four.
pub proof fn law_entry_room(n: int)
    requires
        0 <= n,
    ensures
        crate::dir_write::min_len(n) % 4 == 0,
        8 + n <= crate::dir_write::min_len(n) < 8 + n + 4,
{
}

/// The type that is written beside a name: 1 for a regular file, 7 for a link, and 0 for what
/// is neither.
pub proof fn law_entry_type(i: InodeView)
    ensures
        i.mode / 0x1000 == 8 ==> crate::dir_write::link_type(i) == 1,
        i.mode / 0x1000 == 10 ==> crate::dir_write::link_type(i) == 7,
        i.mode / 0x1000 != 8 && i.mode / 0x1000 != 10 ==> crate::dir_write::link_type(i) == 0,
        dir::dir_file_type::REG_FILE == 1,
        dir::dir_file_type::DIR == 2,
{
    layout::law_file_type(i.mode);
}

/// A file holds a tree where bit 19 of its flags is set.
pub proof fn law_tree_flag(i: InodeView)
    ensures
        i.uses_extents() <==> i.flags / 0x80000 % 2 == 1,
{
    let f = i.flags;
    assert(f & 0x80000u32 != 0 <==> f / 0x80000 % 2 == 1) by (bit_vector);
}

/// Marking a volume as in use clears the lowest bit of its state on the device, and marking it
/// as unmounted sets that.
pub proof fn law_clean_bit(disk: Seq<u8>)
    requires
        disk.len() >= 2048,
        disk.len() % 512 == 0,
    ensures
        layout::little(crate::journal::mount::dirtied(disk).0, 1082, 2) % 2 == 0,
        layout::little(crate::journal::mount::undirtied(disk).0, 1082, 2) % 2 == 1,
        layout::little(crate::journal::mount::dirtied(disk).0, 1082, 2) / 2 == layout::little(
            disk,
            1082,
            2,
        ) / 2,
        layout::little(crate::journal::mount::undirtied(disk).0, 1082, 2) / 2 == layout::little(
            disk,
            1082,
            2,
        ) / 2,
{
    let a = crate::journal::mount::dirtied(disk).0;
    let b = crate::journal::mount::undirtied(disk).0;
    crate::journal::mount::law_state_flag(disk);
    layout::law_numbers(disk, 1082);
    layout::law_numbers(a, 1082);
    layout::law_numbers(b, 1082);
    let x = bytes::le16(a, 1082);
    let y = bytes::le16(b, 1082);
    let z = bytes::le16(disk, 1082);
    assert(x & 1u16 == 0 && x | 1u16 == z | 1u16 ==> x % 2 == 0 && x / 2 == z / 2)
        by (bit_vector);
    assert(y == z | 1u16 ==> y % 2 == 1 && y / 2 == z / 2) by (bit_vector);
}

/// The counts in the descriptors are kept on a volume whose descriptors carry no checksums:
/// bits 4 and 10 of the features say that they do.
pub proof fn law_counts_kept(sb: crate::superblock::Superblock)
    requires
        sb.wf(),
    ensures
        crate::group_desc::keeps_counts(sb) <==> sb.feature_ro_compat / 0x10 % 2 == 0
            && sb.feature_ro_compat / 0x400 % 2 == 0,
{
    let f = sb.feature_ro_compat;
    assert(f & 0x10u32 == 0 <==> f / 0x10 % 2 == 0) by (bit_vector);
    assert(f & 0x400u32 == 0 <==> f / 0x400 % 2 == 0) by (bit_vector);
}

/// The features of a journal: bit 1 says that its block numbers are wide, bit 4 that its commits
/// carry checksums. One with any feature from bit 5 on is refused, and so is one whose first
/// block is its superblock's, or lies behind its end.
pub proof fn law_journal_features(j: crate::journal::JournalSuperblock, magic: u32, total: u32, first: u32)
    ensures
        j.wide() <==> j.feature_incompat / 2 % 2 == 1,
        j.checksummed() <==> j.feature_incompat / 16 % 2 == 1,
        crate::journal::superblock::fault(magic, j.feature_incompat, total, first) is None <==> magic
            == 0xC03B3998 && j.feature_incompat < 32 && 0 < first < total,
{
    let f = j.feature_incompat;
    assert(f & 2u32 != 0 <==> f / 2 % 2 == 1) by (bit_vector);
    assert(f & 16u32 != 0 <==> f / 16 % 2 == 1) by (bit_vector);
    assert(f & !(1u32 | 2u32 | 4u32 | 8u32 | 16u32) == 0 <==> f < 32) by (bit_vector);
}

/// The superblock lies 1024 bytes from the start of the device, whatever the size of a block.
pub proof fn law_superblock_home(sb: crate::superblock::Superblock)
    requires
        sb.wf(),
    ensures
        crate::superblock_write::home_block(sb) * sb.block_size
            + crate::superblock_write::home_offset(sb) == 1024,
        crate::superblock_write::home_offset(sb) + 1024 <= sb.block_size,
{
    let bs = sb.block_size as int;
    assert(1 * bs == bs && 0 * bs == 0) by (nonlinear_arith);
    if sb.block_size <= 1024 {
        assert(crate::superblock_write::home_block(sb) == 1);
        assert(sb.block_size == 1024);
    } else {
        assert(crate::superblock_write::home_block(sb) == 0);
    }
}

/// One link more is one more, and one less is one less.
pub proof fn law_links(links: u16)
    ensures
        links < u16::MAX ==> crate::fsp_impl::create::one_more(links) == links + 1,
        links > 0 ==> crate::fsp_impl::delete::one_less(links) == links - 1,
{
}

} // verus!
