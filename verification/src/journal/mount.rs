//! Mounting a volume for writing.
use vstd::prelude::*;
use super::writer;
use super::writer::JournalWriter;
use super::{Journal, JournalError};
use crate::block_device;
use crate::block_device::{BlockDevice, BlockDeviceError};
use crate::bytes;
use crate::group_desc;
use crate::group_desc::{GroupDesc, GroupDescError, GroupDescTable};
use crate::superblock;
use crate::superblock::state;
use crate::superblock::{Superblock, SuperblockError};

verus! {

broadcast use crate::bytes::group_codec;

/// Why a volume was not mounted.
#[derive(Debug)]
pub enum MountError {
    /// Errors are recorded on the volume.
    FilesystemError(String),
    Journal(JournalError),
    Superblock(SuperblockError),
    GroupDesc(GroupDescError),
    BlockDevice(BlockDeviceError),
    InvalidBuffer,
}

/// A volume that is mounted for reading and writing.
pub struct Ext4FsRw<D: BlockDevice> {
    pub dev: D,
    pub sb: Superblock,
    pub gdt: GroupDescTable,
    pub journal: JournalWriter,
}

/// The superblock's bytes with another state.
pub open spec fn with_state(s: Seq<u8>, v: u16) -> Seq<u8> {
    bytes::put(s, 58, bytes::le16_bytes(v))
}

/// Changing the state in the superblock on disk to `v`, given its bytes `s`.
pub open spec fn restated(disk: Seq<u8>, s: Seq<u8>, v: u16) -> (
    Seq<u8>,
    Result<(), BlockDeviceError>,
) {
    (
        block_device::written(disk, 2, with_state(s, v)),
        block_device::write_result(disk, 2, with_state(s, v)),
    )
}

/// Marking the volume as in use.
pub open spec fn dirtied(disk: Seq<u8>) -> (Seq<u8>, Result<(), BlockDeviceError>) {
    match block_device::read_at(disk, 2, 2) {
        Err(e) => (disk, Err(e)),
        Ok(s) => restated(disk, s, bytes::le16(s, 58) & !state::VALID_FS),
    }
}

/// Marking the volume as cleanly unmounted.
pub open spec fn undirtied(disk: Seq<u8>) -> (Seq<u8>, Result<(), BlockDeviceError>) {
    match block_device::read_at(disk, 2, 2) {
        Err(e) => (disk, Err(e)),
        Ok(s) => restated(disk, s, bytes::le16(s, 58) | state::VALID_FS),
    }
}

/// The state in the superblock on disk.
pub open spec fn state_on(disk: Seq<u8>) -> u16 {
    bytes::le16(disk, 1082)
}

/// Marking a volume as in use clears its clean bit, marking it as unmounted
/// sets it, and neither touches another bit, or a byte outside the state.
pub proof fn law_state_flag(disk: Seq<u8>)
    requires
        disk.len() >= 2048,
        disk.len() % 512 == 0,
    ensures
        dirtied(disk).1 is Ok,
        state_on(dirtied(disk).0) & state::VALID_FS == 0,
        state_on(dirtied(disk).0) | state::VALID_FS == state_on(disk) | state::VALID_FS,
        undirtied(disk).1 is Ok,
        state_on(undirtied(disk).0) == state_on(disk) | state::VALID_FS,
        undirtied(dirtied(disk).0).0 == undirtied(disk).0,
        block_device::same_outside(disk, dirtied(disk).0, 1082, 1084),
        block_device::same_outside(disk, undirtied(disk).0, 1082, 1084),
{
    let s = block_device::read_at(disk, 2, 2)->Ok_0;
    let v = state_on(disk);
    bytes::lemma_le16_part(disk, 1024, 2048, 58);
    let d1 = dirtied(disk).0;
    let d2 = undirtied(disk).0;
    let lo = with_state(s, v & !state::VALID_FS);
    let hi = with_state(s, v | state::VALID_FS);
    bytes::lemma_le16_inside(disk, 1024, lo, 1082);
    bytes::lemma_le16_inside(disk, 1024, hi, 1082);
    assert((v & !1u16) & 1u16 == 0 && (v & !1u16) | 1u16 == v | 1u16) by (bit_vector);
    assert(d1.subrange(1024, 2048) =~= lo);
    let d3 = undirtied(d1).0;
    assert(with_state(lo, v | state::VALID_FS) =~= hi);
    assert(d3 =~= d2);
}

/// After an unmount the superblock is read as that of a cleanly unmounted volume, and
/// is accepted where it was before.
pub proof fn law_unmounted_is_clean(disk: Seq<u8>, sb: Superblock)
    requires
        disk.len() >= 2048,
        disk.len() % 512 == 0,
        superblock::fault(block_device::read_at(disk, 2, 2)->Ok_0) is None,
        sb.reads(block_device::read_at(undirtied(disk).0, 2, 2)->Ok_0),
    ensures
        undirtied(disk).1 is Ok,
        block_device::read_at(undirtied(disk).0, 2, 2) is Ok,
        superblock::fault(block_device::read_at(undirtied(disk).0, 2, 2)->Ok_0) is None,
        sb.state & state::VALID_FS != 0,
{
    law_state_flag(disk);
    let s = block_device::read_at(disk, 2, 2)->Ok_0;
    let d = undirtied(disk).0;
    let v = bytes::le16(s, 58);
    let hi = with_state(s, v | state::VALID_FS);
    assert(block_device::read_at(d, 2, 2)->Ok_0 =~= hi);
    assert((v | 1u16) & 1u16 != 0) by (bit_vector);
}

/// Mounting a volume for writing and unmounting it changes nothing but the clean bit
/// of its state, beyond what the replay of its journal changed: that left `replayed`.
/// What is known of the groups is what the device holds then.
pub proof fn law_mounted_then_unmounted<D: BlockDevice>(
    disk: Seq<u8>,
    fs: Ext4FsRw<D>,
) -> (replayed: Seq<u8>)
    requires
        mounts(disk, Ok::<Ext4FsRw<D>, MountError>(fs)),
        fs.dev.bytes().len() >= 2048,
        fs.dev.bytes().len() % 512 == 0,
    ensures
        exists|g: Seq<GroupDesc>, j: Journal| #[trigger]
            super::recovery(disk, fs.sb, g, replayed, Ok::<Journal, JournalError>(j)),
        group_desc::loaded(replayed, fs.sb) == Ok::<Seq<GroupDesc>, GroupDescError>(fs.gdt@),
        undirtied(fs.dev.bytes()).1 is Ok,
        undirtied(fs.dev.bytes()).0 == undirtied(replayed).0,
        block_device::same_outside(replayed, undirtied(fs.dev.bytes()).0, 1082, 1084),
        state_on(undirtied(fs.dev.bytes()).0) == state_on(replayed) | state::VALID_FS,
{
    let s = block_device::read_at(disk, 2, 2)->Ok_0;
    let r = Ok::<Ext4FsRw<D>, MountError>(fs);
    let sb = choose|sb: Superblock|
        #![trigger sb.reads(s)]
        sb.reads(s) && sb.wf() && mounts_from(disk, sb, r);
    let g = group_desc::loaded(disk, sb)->Ok_0;
    let (disk2, rj) = choose|disk2: Seq<u8>, rj: Result<Journal, JournalError>|
        #[trigger] super::recovery(disk, sb, g, disk2, rj) && mounts_recovered(sb, disk2, rj, r);
    assert(disk2.len() == fs.dev.bytes().len());
    law_state_flag(disk2);
    law_state_flag(fs.dev.bytes());
    assert(super::recovery(disk, fs.sb, g, disk2, Ok::<Journal, JournalError>(rj->Ok_0)));
    disk2
}

/// What is written when a volume with errors is to be mounted for writing.
pub open spec fn refusal() -> Seq<char> {
    "filesystem has errors — run e2fsck before mounting read-write"@
}

/// Whether mounting gives `r`, after the recovery of the journal ended in `rj` and left
/// `disk`: the descriptors are loaded again, and the volume is marked as in use.
pub open spec fn mounts_recovered<D: BlockDevice>(
    sb: Superblock,
    disk: Seq<u8>,
    rj: Result<Journal, JournalError>,
    r: Result<Ext4FsRw<D>, MountError>,
) -> bool {
    match rj {
        Err(e) => r is Err && r->Err_0 == MountError::Journal(e),
        Ok(j) => match group_desc::loaded(disk, sb) {
            Err(e) => r is Err && r->Err_0 == MountError::GroupDesc(e),
            Ok(g) => match dirtied(disk).1 {
                Err(e) => r is Err && r->Err_0 == MountError::BlockDevice(e),
                Ok(()) => {
                    &&& r is Ok
                    &&& r->Ok_0.dev.bytes() == dirtied(disk).0
                    &&& r->Ok_0.sb == sb
                    &&& r->Ok_0.gdt@ == g
                    &&& r->Ok_0.journal@ == writer::writer_of(j)
                },
            },
        },
    }
}

/// Whether mounting the volume on `disk` for writing gives `r`, after the
/// superblock was found to be `sb`: the descriptors are loaded, and the journal is
/// replayed, which may change the descriptors.
pub open spec fn mounts_from<D: BlockDevice>(
    disk: Seq<u8>,
    sb: Superblock,
    r: Result<Ext4FsRw<D>, MountError>,
) -> bool {
    match group_desc::loaded(disk, sb) {
        Err(e) => r is Err && r->Err_0 == MountError::GroupDesc(e),
        Ok(g) => exists|disk2: Seq<u8>, rj: Result<Journal, JournalError>|
            #[trigger] super::recovery(disk, sb, g, disk2, rj) && mounts_recovered(
                sb,
                disk2,
                rj,
                r,
            ),
    }
}

/// Whether mounting the volume on `disk` for writing gives `r`. A volume on
/// which errors are recorded is refused.
pub open spec fn mounts<D: BlockDevice>(
    disk: Seq<u8>,
    r: Result<Ext4FsRw<D>, MountError>,
) -> bool {
    match block_device::read_at(disk, 2, 2) {
        Err(e) => r is Err && r->Err_0 == MountError::Superblock(SuperblockError::BlockDevice(e)),
        Ok(s) => match superblock::fault(s) {
            Some(e) => r is Err && r->Err_0 == MountError::Superblock(e),
            None => if bytes::le16(s, 58) & state::ERROR_FS != 0 {
                r is Err && r->Err_0 is FilesystemError && r->Err_0->FilesystemError_0@
                    == refusal()
            } else {
                exists|sb: Superblock|
                    #![trigger sb.reads(s)]
                    sb.reads(s) && sb.wf() && mounts_from(disk, sb, r)
            },
        },
    }
}

impl<D: BlockDevice> Ext4FsRw<D> {
    /// Mount a volume for reading and writing: parse the superblock, refuse a
    /// volume with errors, load the descriptors, replay the journal, load the
    /// descriptors as the replay left them, and mark the volume as in use.
    pub fn open_rw(dev: D) -> (r: Result<Self, MountError>)
        ensures
            r is Ok || dev.reliable() ==> mounts(dev.bytes(), r),
            r is Ok ==> r->Ok_0.sb.wf() && r->Ok_0.dev.synced() && r->Ok_0.dev.reliable()
                == dev.reliable(),
    {
        let mut dev = dev;
        let ghost disk = dev.bytes();
        let sb = match superblock::parse(&dev) {
            Ok(sb) => sb,
            Err(e) => {
                return Err(MountError::Superblock(e));
            },
        };
        if sb.state_has_error() {
            return Err(
                MountError::FilesystemError(
                    "filesystem has errors — run e2fsck before mounting read-write".to_owned(),
                ),
            );
        }
        let gdt = match GroupDescTable::load(&dev, &sb) {
            Ok(g) => g,
            Err(e) => {
                return Err(MountError::GroupDesc(e));
            },
        };
        let journal = match super::check_and_recover(&mut dev, &sb, &gdt) {
            Ok(j) => j,
            Err(e) => {
                assert(dev.reliable() ==> super::recovery(
                    disk,
                    sb,
                    gdt@,
                    dev.bytes(),
                    Err::<Journal, JournalError>(e),
                ));
                return Err(MountError::Journal(e));
            },
        };
        assert(super::recovery(
            disk,
            sb,
            gdt@,
            dev.bytes(),
            Ok::<Journal, JournalError>(journal),
        ));
        let gdt = match GroupDescTable::load(&dev, &sb) {
            Ok(g) => g,
            Err(e) => {
                return Err(MountError::GroupDesc(e));
            },
        };
        match set_dirty_flag(&mut dev, &sb) {
            Ok(()) => {},
            Err(e) => {
                return Err(e);
            },
        }
        match dev.flush() {
            Ok(()) => {},
            Err(e) => {
                return Err(MountError::BlockDevice(e));
            },
        }
        Ok(Ext4FsRw { dev, sb, gdt, journal: JournalWriter::new(&journal) })
    }

    /// Unmount: mark the volume as cleanly unmounted, and flush the device,
    /// which is given back.
    pub fn unmount(self) -> (r: Result<D, MountError>)
        ensures
            r is Ok || self.dev.reliable() ==> match undirtied(self.dev.bytes()).1 {
                Err(e) => r is Err && r->Err_0 == MountError::BlockDevice(e),
                Ok(()) => r is Ok && r->Ok_0.bytes() == undirtied(self.dev.bytes()).0,
            },
            r is Ok ==> r->Ok_0.synced(),
    {
        let mut dev = self.dev;
        let mut journal = self.journal;
        match journal.flush_pending(&dev) {
            Ok(()) => {},
            Err(e) => {
                return Err(MountError::Journal(e));
            },
        }
        match clear_dirty_flag(&mut dev, &self.sb) {
            Ok(()) => {},
            Err(e) => {
                return Err(e);
            },
        }
        match dev.flush() {
            Ok(()) => Ok(dev),
            Err(e) => Err(MountError::BlockDevice(e)),
        }
    }
}

fn write_state<D: BlockDevice>(dev: &mut D, s: Vec<u8>, v: u16) -> (r: Result<(), MountError>)
    requires
        s@.len() == 1024,
    ensures
        block_device::same_shape(*old(dev), *final(dev)),
        r is Ok || old(dev).reliable() ==> {
            &&& final(dev).bytes() == restated(old(dev).bytes(), s@, v).0
            &&& match restated(old(dev).bytes(), s@, v).1 {
                Ok(()) => r is Ok,
                Err(e) => r is Err && r->Err_0 == MountError::BlockDevice(e),
            }
        },
{
    let mut s = s;
    bytes::put_u16_le(&mut s, 58, v);
    match block_device::write_sectors(dev, 2, s.as_slice()) {
        Ok(()) => Ok(()),
        Err(e) => Err(MountError::BlockDevice(e)),
    }
}

/// Mark the volume as in use: clear the clean bit of its state.
pub fn set_dirty_flag<D: BlockDevice>(dev: &mut D, _sb: &Superblock) -> (r: Result<
    (),
    MountError,
>)
    ensures
        block_device::same_shape(*old(dev), *final(dev)),
        r is Ok || old(dev).reliable() ==> {
            &&& final(dev).bytes() == dirtied(old(dev).bytes()).0
            &&& match dirtied(old(dev).bytes()).1 {
                Ok(()) => r is Ok,
                Err(e) => r is Err && r->Err_0 == MountError::BlockDevice(e),
            }
        },
{
    let s = match block_device::read_sectors(dev, 2, 2) {
        Ok(s) => s,
        Err(e) => {
            return Err(MountError::BlockDevice(e));
        },
    };
    let current: u16 = bytes::get_u16_le(s.as_slice(), 58);
    write_state(dev, s, current & !state::VALID_FS)
}

/// Mark the volume as cleanly unmounted: set the clean bit of its state. The
/// device is flushed.
pub fn clear_dirty_flag<D: BlockDevice>(dev: &mut D, _sb: &Superblock) -> (r: Result<
    (),
    MountError,
>)
    ensures
        block_device::same_shape(*old(dev), *final(dev)),
        r is Ok || old(dev).reliable() ==> {
            &&& final(dev).bytes() == undirtied(old(dev).bytes()).0
            &&& match undirtied(old(dev).bytes()).1 {
                Ok(()) => r is Ok,
                Err(e) => r is Err && r->Err_0 == MountError::BlockDevice(e),
            }
        },
        r is Ok ==> final(dev).synced(),
{
    let s = match block_device::read_sectors(dev, 2, 2) {
        Ok(s) => s,
        Err(e) => {
            return Err(MountError::BlockDevice(e));
        },
    };
    let current: u16 = bytes::get_u16_le(s.as_slice(), 58);
    match write_state(dev, s, current | state::VALID_FS) {
        Ok(()) => {},
        Err(e) => {
            return Err(e);
        },
    }
    match dev.flush() {
        Ok(()) => Ok(()),
        Err(e) => Err(MountError::BlockDevice(e)),
    }
}

} // verus!
