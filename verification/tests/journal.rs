//! The journal: writing, replay and checkpoints.
use pengwin::block_device::{read_sectors, BlockDevice, MemoryDevice};
use pengwin::journal::replay::{block_type, replay, tag_flags};
use pengwin::journal::superblock::{self, JournalSuperblock, RawJournalSuperblock};
use pengwin::journal::writer::{JournalWriter, Transaction};
use pengwin::journal::{Journal, JournalError, JOURNAL_MAGIC};
use pengwin::superblock::Superblock;

fn put_be(s: &mut [u8], off: usize, v: u32) {
    s[off..off + 4].copy_from_slice(&v.to_be_bytes());
}

fn make_raw_jsb(magic: u32, start: u32) -> RawJournalSuperblock {
    let mut s = vec![0u8; 1024];
    put_be(&mut s, 0, magic);
    put_be(&mut s, 4, 4);
    put_be(&mut s, 12, 4096);
    put_be(&mut s, 16, 1024);
    put_be(&mut s, 20, 1);
    put_be(&mut s, 24, 1);
    put_be(&mut s, 28, start);
    RawJournalSuperblock::read_from(&s).unwrap()
}

#[test]
fn mod_bad_magic() {
    let jsb = make_raw_jsb(0xDEADBEEF, 0);
    let err = superblock::parse(&jsb).unwrap_err();
    assert!(matches!(err, JournalError::BadMagic(0xDEADBEEF)));
}

#[test]
fn clean_journal_superblock() {
    let jsb = make_raw_jsb(JOURNAL_MAGIC, 0);
    let parsed = superblock::parse(&jsb).unwrap();
    assert!(parsed.is_clean());
    assert!(!parsed.needs_recovery());
}

#[test]
fn dirty_journal_superblock() {
    let jsb = make_raw_jsb(JOURNAL_MAGIC, 5);
    let parsed = superblock::parse(&jsb).unwrap();
    assert!(parsed.needs_recovery());
    assert!(!parsed.is_clean());
}

fn make_fs_sb(block_size: u32) -> Superblock {
    Superblock {
        block_size,
        blocks_count: 4096,
        inodes_count: 1024,
        inodes_per_group: 256,
        blocks_per_group: 32768,
        first_data_block: 0,
        uuid: [0u8; 16],
        volume_name: String::new(),
        desc_size: 64,
        feature_incompat: 0x40,
        feature_ro_compat: 0,
        inode_size: 256,
        state: 0x0001,
    }
}

fn make_journal_sb(start: u32, seq: u32, total: u32, block_size: u32) -> JournalSuperblock {
    JournalSuperblock {
        block_size,
        total_blocks: total,
        first_usable_block: 1,
        start_sequence: seq,
        start_block: start,
        errno: 0,
        feature_incompat: 0,
        uuid: [0u8; 16],
    }
}

const BS: usize = 4096;
const PHYS: usize = 10;

/// A device whose journal lies in the blocks from 10 on; `patch` fills it in.
fn make_journal_device(
    blocks: u32,
    patch: impl FnOnce(&mut Vec<u8>),
) -> (MemoryDevice, Journal, Superblock) {
    let mut raw = vec![0u8; (PHYS + blocks as usize) * BS];
    let o = PHYS * BS;
    put_be(&mut raw, o, JOURNAL_MAGIC);
    put_be(&mut raw, o + 4, 4);
    put_be(&mut raw, o + 12, BS as u32);
    put_be(&mut raw, o + 16, blocks);
    put_be(&mut raw, o + 20, 1);
    put_be(&mut raw, o + 24, 1);
    put_be(&mut raw, o + 28, 0);
    patch(&mut raw);
    let journal = Journal {
        blocks: (0..blocks as u64).map(|i| PHYS as u64 + i).collect(),
        sb: make_journal_sb(0, 1, blocks, BS as u32),
    };
    (MemoryDevice::from_bytes(raw), journal, make_fs_sb(BS as u32))
}

fn head(raw: &mut [u8], jb: usize, kind: u32) -> usize {
    let o = (PHYS + jb) * BS;
    put_be(raw, o, JOURNAL_MAGIC);
    put_be(raw, o + 4, kind);
    put_be(raw, o + 8, 1);
    o
}

fn tag(raw: &mut [u8], off: usize, fs_block: u32) {
    put_be(raw, off, fs_block);
    let flags: u16 = tag_flags::LAST_TAG | tag_flags::SAME_UUID;
    raw[off + 4..off + 6].copy_from_slice(&flags.to_be_bytes());
}

fn sector(dev: &MemoryDevice, block: u64) -> [u8; 512] {
    let mut buf = [0u8; 512];
    dev.read_sector(block * (BS as u64 / 512), &mut buf).unwrap();
    buf
}

#[test]
fn replay_noop_on_clean() {
    let (mut dev, journal, fs_sb) = make_journal_device(16, |_| {});
    let before = dev.contents().to_vec();
    replay(&mut dev, &fs_sb, &journal).unwrap();
    assert_eq!(dev.contents(), &before[..]);
}

#[test]
fn replay_single_transaction() {
    let (mut dev, mut journal, fs_sb) = make_journal_device(32, |raw| {
        let o = head(raw, 1, 1);
        tag(raw, o + 12, 5);
        let data_off = (PHYS + 2) * BS;
        raw[data_off..data_off + BS].fill(0xAA);
        head(raw, 3, 2);
    });
    journal.sb.start_block = 1;
    journal.sb.start_sequence = 1;

    replay(&mut dev, &fs_sb, &journal).unwrap();

    assert!(
        sector(&dev, 5).iter().all(|&b| b == 0xAA),
        "fs block 5 should be 0xAA after replay"
    );
}

#[test]
fn replay_with_revoke() {
    let (mut dev, mut journal, fs_sb) = make_journal_device(32, |raw| {
        let o = head(raw, 1, 5);
        put_be(raw, o + 12, 1);
        put_be(raw, o + 16, 7);
        let o = head(raw, 2, 1);
        tag(raw, o + 12, 7);
        let data_off = (PHYS + 3) * BS;
        raw[data_off..data_off + BS].fill(0xBB);
        head(raw, 4, 2);
    });
    journal.sb.start_block = 1;
    journal.sb.start_sequence = 1;

    replay(&mut dev, &fs_sb, &journal).unwrap();

    assert!(
        sector(&dev, 7).iter().all(|&b| b == 0x00),
        "revoked block should not be replayed"
    );
}

#[test]
fn replay_partial_transaction_not_applied() {
    let (mut dev, mut journal, fs_sb) = make_journal_device(32, |raw| {
        let o = head(raw, 1, 1);
        tag(raw, o + 12, 3);
        let data_off = (PHYS + 2) * BS;
        raw[data_off..data_off + BS].fill(0xFF);
    });
    journal.sb.start_block = 1;
    journal.sb.start_sequence = 1;

    replay(&mut dev, &fs_sb, &journal).unwrap();

    assert!(
        sector(&dev, 3).iter().all(|&b| b == 0x00),
        "partial txn should not be applied"
    );
}

#[test]
fn mark_clean_after_replay() {
    let (mut dev, mut journal, fs_sb) = make_journal_device(16, |raw| {
        head(raw, 1, 2);
    });
    journal.sb.start_block = 1;
    journal.sb.start_sequence = 1;

    replay(&mut dev, &fs_sb, &journal).unwrap();

    let data = read_sectors(&dev, PHYS as u64 * 8, 8).unwrap();
    let raw_jsb = RawJournalSuperblock::read_from(&data[..1024]).unwrap();
    assert_eq!(raw_jsb.s_start, 0, "journal should be marked clean after replay");
}

fn make_journal(num_blocks: u32) -> (MemoryDevice, Journal) {
    let raw = vec![0u8; (PHYS + num_blocks as usize) * BS];
    let journal = Journal {
        blocks: (0..num_blocks as u64).map(|i| PHYS as u64 + i).collect(),
        sb: make_journal_sb(0, 1, num_blocks, BS as u32),
    };
    (MemoryDevice::from_bytes(raw), journal)
}

fn be(b: &[u8], o: usize) -> u32 {
    u32::from_be_bytes([b[o], b[o + 1], b[o + 2], b[o + 3]])
}

#[test]
fn commit_single_block() {
    let (mut dev, journal) = make_journal(32);
    let mut writer = JournalWriter::new(&journal);

    let mut txn = writer.begin_transaction();
    txn.pin_block(5, vec![0xAAu8; 4096]).unwrap();
    writer.commit(&mut dev, txn).unwrap();

    let buf = sector(&dev, 11);
    assert_eq!(be(&buf, 0), JOURNAL_MAGIC);
    assert_eq!(be(&buf, 4), block_type::DESCRIPTOR);
}

#[test]
fn commit_multiple_blocks() {
    let (mut dev, journal) = make_journal(32);
    let mut writer = JournalWriter::new(&journal);

    let mut txn = writer.begin_transaction();
    txn.pin_block(1, vec![0x11u8; 4096]).unwrap();
    txn.pin_block(2, vec![0x22u8; 4096]).unwrap();
    txn.pin_block(3, vec![0x33u8; 4096]).unwrap();
    writer.commit(&mut dev, txn).unwrap();

    let buf_full = sector(&dev, 11);
    let tag2_off = 12 + 12 + 16 + 12;
    let flags = u16::from_be_bytes([buf_full[tag2_off + 4], buf_full[tag2_off + 5]]);
    assert_ne!(flags & tag_flags::LAST_TAG, 0, "last tag should have LAST_TAG flag");
}

#[test]
fn checkpoint_writes_to_fs() {
    let (mut dev, journal) = make_journal(32);
    let mut writer = JournalWriter::new(&journal);

    let mut txn = writer.begin_transaction();
    txn.pin_block(20, vec![0xCCu8; 4096]).unwrap();
    let blocks = txn.pinned_blocks().to_vec();
    writer.commit(&mut dev, txn).unwrap();

    writer.checkpoint(&mut dev, &blocks).unwrap();

    assert!(sector(&dev, 20).iter().all(|&b| b == 0xCC));
}

#[test]
fn escape_magic_bytes() {
    let (mut dev, journal) = make_journal(32);
    let mut writer = JournalWriter::new(&journal);

    let mut data = vec![0u8; 4096];
    data[0..4].copy_from_slice(&JOURNAL_MAGIC.to_be_bytes());
    data[4] = 0x42;

    let mut txn = writer.begin_transaction();
    txn.pin_block(1, data).unwrap();
    writer.commit(&mut dev, txn).unwrap();

    let buf = sector(&dev, 12);
    assert_eq!(&buf[0..4], &[0, 0, 0, 0], "magic should be escaped in journal data block");
    assert_eq!(buf[4], 0x42);
}

#[test]
fn revoke_block_written() {
    let (mut dev, journal) = make_journal(32);
    let mut writer = JournalWriter::new(&journal);

    let mut txn = writer.begin_transaction();
    txn.revoke_block(42);
    writer.commit(&mut dev, txn).unwrap();

    let buf = sector(&dev, 11);
    assert_eq!(be(&buf, 4), block_type::REVOKE);
    assert_eq!(be(&buf, 12), 1);
    assert_eq!(be(&buf, 16), 42);
}

#[test]
fn wrap_around() {
    let (mut dev, journal) = make_journal(5);
    let mut writer = JournalWriter::new(&journal);

    for i in 0u64..2 {
        let mut txn = writer.begin_transaction();
        txn.pin_block(2 + i, vec![i as u8; 4096]).unwrap();
        writer.commit(&mut dev, txn).unwrap();
    }
    assert_eq!(writer.write_head(), 3);
    assert_eq!(writer.next_sequence(), 3);
}

#[test]
fn dedup_pin_block() {
    let mut txn = Transaction::new(1);
    txn.pin_block(5, vec![0x11u8; 4096]).unwrap();
    txn.pin_block(5, vec![0x22u8; 4096]).unwrap();
    assert_eq!(txn.pinned_blocks().len(), 1);
    assert!(
        txn.pinned_blocks()[0].1.iter().all(|&b| b == 0x22),
        "second pin should replace first"
    );
}

#[test]
fn a_committed_transaction_is_in_place_and_in_the_log() {
    let (mut dev, mut journal) = make_journal(32);
    let fs_sb = make_fs_sb(BS as u32);
    let mut writer = JournalWriter::new(&journal);
    let mut txn = writer.begin_transaction();
    txn.pin_block(3, vec![0x33u8; 4096]).unwrap();
    txn.pin_block(4, vec![0x44u8; 4096]).unwrap();
    writer.commit(&mut dev, txn).unwrap();
    assert!(sector(&dev, 3).iter().all(|&b| b == 0x33));

    // Lose what was written in place; the log brings it back.
    let mut data = dev.contents().to_vec();
    data[3 * BS..5 * BS].fill(0);
    put_be(&mut data, PHYS * BS, JOURNAL_MAGIC);
    let mut dev = MemoryDevice::from_bytes(data);
    journal.sb.start_block = 1;
    replay(&mut dev, &fs_sb, &journal).unwrap();
    assert!(sector(&dev, 3).iter().all(|&b| b == 0x33));
    assert!(sector(&dev, 4).iter().all(|&b| b == 0x44));
}

#[test]
fn transactions_replay_in_order() {
    let (mut dev, mut journal) = make_journal(32);
    let fs_sb = make_fs_sb(BS as u32);
    let mut writer = JournalWriter::new(&journal);
    for v in [1u8, 2u8] {
        let mut txn = writer.begin_transaction();
        txn.pin_block(3, vec![v; 4096]).unwrap();
        writer.commit(&mut dev, txn).unwrap();
    }
    let mut data = dev.contents().to_vec();
    data[3 * BS..4 * BS].fill(9);
    let mut dev = MemoryDevice::from_bytes(data);
    journal.sb.start_block = 1;
    replay(&mut dev, &fs_sb, &journal).unwrap();
    assert!(sector(&dev, 3).iter().all(|&b| b == 2));
}

#[test]
fn journals_that_are_not_sound_are_refused() {
    let mut raw = make_raw_jsb(JOURNAL_MAGIC, 0);
    raw.s_maxlen = 1;
    raw.s_first = 1;
    assert!(matches!(superblock::parse(&raw), Err(JournalError::InvalidGeometry(1, 1))));
    let mut raw = make_raw_jsb(JOURNAL_MAGIC, 0);
    raw.s_feature_incompat = 0x8000_0000;
    assert!(matches!(
        superblock::parse(&raw),
        Err(JournalError::UnsupportedFeatures(0x8000_0000))
    ));
    let (dev, journal) = make_journal(5);
    assert!(matches!(
        journal.read_block(&dev, &make_fs_sb(4096), 5, &mut Vec::new()),
        Err(JournalError::BlockOutOfRange(5))
    ));
}

#[test]
fn a_revoked_block_keeps_what_it_holds() {
    // Sequence 1 logs blocks 7 and 8, sequence 2 revokes 7.
    let (mut dev, mut journal, fs_sb) = make_journal_device(32, |raw| {
        raw[7 * BS..8 * BS].fill(0x55);
        let o = head(raw, 1, 1);
        put_be(raw, o + 12, 7);
        raw[o + 16..o + 18].copy_from_slice(&tag_flags::SAME_UUID.to_be_bytes());
        tag(raw, o + 24, 8);
        raw[(PHYS + 2) * BS..(PHYS + 3) * BS].fill(0xBB);
        raw[(PHYS + 3) * BS..(PHYS + 4) * BS].fill(0xCC);
        head(raw, 4, 2);
        let o = head(raw, 5, 5);
        put_be(raw, o + 8, 2);
        put_be(raw, o + 12, 1);
        put_be(raw, o + 16, 7);
        let o = head(raw, 6, 2);
        put_be(raw, o + 8, 2);
    });
    journal.sb.start_block = 1;
    replay(&mut dev, &fs_sb, &journal).unwrap();
    assert_eq!(dev.contents()[7 * BS..8 * BS], [0x55u8; BS]);
    assert_eq!(dev.contents()[8 * BS..9 * BS], [0xCCu8; BS]);
}

#[test]
fn a_block_that_is_logged_after_it_was_revoked_is_replayed() {
    let (mut dev, journal) = make_journal(32);
    let mut writer = JournalWriter::new(&journal);
    let mut txn = writer.begin_transaction();
    txn.revoke_block(7);
    txn.pin_block(5, vec![5u8; BS]).unwrap();
    writer.commit(&mut dev, txn).unwrap();
    let mut txn = writer.begin_transaction();
    txn.pin_block(7, vec![7u8; BS]).unwrap();
    writer.commit(&mut dev, txn).unwrap();
    let (mut dev, journal) = lost(dev, journal);
    replay(&mut dev, &make_fs_sb(BS as u32), &journal).unwrap();
    assert_eq!(dev.contents()[5 * BS..6 * BS], [5u8; BS]);
    assert_eq!(dev.contents()[7 * BS..8 * BS], [7u8; BS]);
}

/// The device with all in front of the journal gone, and a journal to be replayed.
fn lost(dev: MemoryDevice, journal: Journal) -> (MemoryDevice, Journal) {
    let mut data = dev.contents().to_vec();
    data[..PHYS * BS].fill(0);
    put_be(&mut data, PHYS * BS, JOURNAL_MAGIC);
    let mut journal = journal;
    journal.sb.start_block = journal.sb.first_usable_block;
    (MemoryDevice::from_bytes(data), journal)
}

#[test]
fn a_block_that_starts_with_the_magic_number_comes_back() {
    let (mut dev, journal) = make_journal(32);
    let mut writer = JournalWriter::new(&journal);
    let mut d = vec![0u8; BS];
    d[..5].copy_from_slice(&[0xC0, 0x3B, 0x39, 0x98, 0x42]);
    let mut txn = writer.begin_transaction();
    txn.pin_block(3, d.clone()).unwrap();
    txn.pin_block(4, vec![4u8; BS]).unwrap();
    writer.commit(&mut dev, txn).unwrap();
    assert_eq!(&dev.contents()[3 * BS..4 * BS], &d[..]);
    let (mut dev, journal) = lost(dev, journal);
    replay(&mut dev, &make_fs_sb(BS as u32), &journal).unwrap();
    assert_eq!(&dev.contents()[3 * BS..4 * BS], &d[..]);
    assert_eq!(dev.contents()[4 * BS..5 * BS], [4u8; BS]);
    // A second replay finds nothing to do.
    let once = dev.contents().to_vec();
    let raw = RawJournalSuperblock::read_from(&once[PHYS * BS..PHYS * BS + 1024]).unwrap();
    assert_eq!(raw.s_start, 0);
}

#[test]
fn revoked_numbers_fill_as_many_blocks_as_they_need() {
    let (mut dev, journal) = make_journal(32);
    let mut writer = JournalWriter::new(&journal);
    let mut txn = writer.begin_transaction();
    for b in 0..1500u64 {
        txn.revoke_block(100 + b);
    }
    txn.pin_block(5, vec![5u8; BS]).unwrap();
    writer.commit(&mut dev, txn).unwrap();
    let (first, second) = (sector(&dev, 11), sector(&dev, 12));
    assert_eq!((be(&first, 4), be(&second, 4)), (block_type::REVOKE, block_type::REVOKE));
    assert_eq!((be(&first, 16), be(&first, 20)), (100, 101));
    assert_eq!(be(&second, 16), 100 + 1020);
    let (mut dev, journal) = lost(dev, journal);
    replay(&mut dev, &make_fs_sb(BS as u32), &journal).unwrap();
    assert_eq!(dev.contents()[5 * BS..6 * BS], [5u8; BS]);
}

#[test]
fn wide_journals_revoke_wide_numbers() {
    let (mut dev, mut journal) = make_journal(32);
    journal.sb.feature_incompat = 2;
    let mut writer = JournalWriter::new(&journal);
    let mut txn = writer.begin_transaction();
    txn.revoke_block(0x1_0000_0007);
    txn.pin_block(7, vec![7u8; BS]).unwrap();
    writer.commit(&mut dev, txn).unwrap();
    let buf = sector(&dev, 11);
    assert_eq!(be(&buf, 4), block_type::REVOKE);
    assert_eq!((be(&buf, 16), be(&buf, 20)), (1, 7));
    // Block 7 is another one.
    let (mut dev, journal) = lost(dev, journal);
    replay(&mut dev, &make_fs_sb(BS as u32), &journal).unwrap();
    assert_eq!(dev.contents()[7 * BS..8 * BS], [7u8; BS]);
}

#[test]
fn a_block_behind_the_journal_is_not_read() {
    let (dev, journal) = make_journal(4);
    let mut buf = vec![1u8, 2, 3];
    let r = journal.read_block(&dev, &make_fs_sb(BS as u32), 4, &mut buf);
    assert!(matches!(r, Err(JournalError::BlockOutOfRange(4))));
    assert_eq!(buf, [1, 2, 3]);
}
