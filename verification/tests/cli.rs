//! What the command line asks for.
use pengwin::block_device::MemoryDevice;
use pengwin::cli::{
    is_raw_disk, normalize_drive_letter, open_fs, volume_serial, Cli, Command,
};
use pengwin::fs_context::Ext4FsError;
use pengwin::superblock::SuperblockError;

#[test]
fn raw_disks_have_device_paths() {
    assert!(is_raw_disk(r"\\.\PhysicalDrive0"));
    assert!(is_raw_disk(r"\\?\Volume{1}"));
    assert!(!is_raw_disk(r"\\server\share"));
    assert!(!is_raw_disk(r"C:\linux.img"));
    assert!(!is_raw_disk(r"\\."));
}

#[test]
fn serials_are_the_first_bytes_of_the_uuid() {
    let mut uuid = [0u8; 16];
    uuid[..4].copy_from_slice(&[0x78, 0x56, 0x34, 0x12]);
    assert_eq!(volume_serial(&uuid), 0x1234_5678);
}

#[test]
fn drives_are_taken_as_given() {
    let cli = Cli { command: Command::Unmount { drive: "z".to_string() } };
    match cli.command {
        Command::Unmount { drive } => assert_eq!(normalize_drive_letter(&drive).unwrap(), "z"),
        Command::Mount { .. } => unreachable!(),
    }
}

#[test]
fn what_is_no_volume_is_not_opened() {
    for (rw, force) in [(false, false), (false, true), (true, false)] {
        let r = open_fs(MemoryDevice::new(8), rw, force);
        assert!(matches!(
            r.err(),
            Some(Ext4FsError::Superblock(SuperblockError::BadMagic(0)))
        ));
    }
}
