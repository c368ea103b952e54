//! The journal's superblock.
use vstd::prelude::*;
use super::JournalError;
use crate::bytes;

verus! {

pub const JOURNAL_MAGIC: u32 = 0xC03B3998;

/// Block type of a version 2 superblock.
pub const SUPERBLOCK_V2: u32 = 4;

/// Bytes that the journal's superblock takes up.
pub const JOURNAL_SUPERBLOCK_SIZE: usize = 1024;

/// Revoke records occur in the journal.
pub const JBD2_FEATURE_INCOMPAT_REVOKE: u32 = 0x001;

/// Tags hold block numbers of more than 32 bits.
pub const JBD2_FEATURE_INCOMPAT_64BIT: u32 = 0x002;

/// Commit blocks may be written out of order; reading is not affected.
pub const JBD2_FEATURE_INCOMPAT_ASYNC_COMMIT: u32 = 0x004;

/// Metadata blocks carry checksums, version 2.
pub const JBD2_FEATURE_INCOMPAT_CSUM_V2: u32 = 0x008;

/// Commit blocks carry checksums, version 3.
pub const JBD2_FEATURE_INCOMPAT_CSUM_V3: u32 = 0x010;

/// The features that are understood. A journal with any other is refused.
pub const SUPPORTED_INCOMPAT: u32 = JBD2_FEATURE_INCOMPAT_REVOKE | JBD2_FEATURE_INCOMPAT_64BIT
    | JBD2_FEATURE_INCOMPAT_ASYNC_COMMIT | JBD2_FEATURE_INCOMPAT_CSUM_V2
    | JBD2_FEATURE_INCOMPAT_CSUM_V3;

/// The fields of the on-disk journal superblock, each at the offset given,
/// big-endian.
#[derive(Debug, Clone, Copy)]
pub struct RawJournalSuperblock {
    /// 0
    pub h_magic: u32,
    /// 4
    pub h_blocktype: u32,
    /// 8
    pub h_sequence: u32,
    /// 12
    pub s_blocksize: u32,
    /// 16
    pub s_maxlen: u32,
    /// 20
    pub s_first: u32,
    /// 24
    pub s_sequence: u32,
    /// 28
    pub s_start: u32,
    /// 32
    pub s_errno: i32,
    /// 36
    pub s_feature_compat: u32,
    /// 40
    pub s_feature_incompat: u32,
    /// 44
    pub s_feature_ro_compat: u32,
    /// 48
    pub s_uuid: [u8; 16],
    /// 64
    pub s_nr_users: u32,
    /// 68
    pub s_dynsuper: u32,
    /// 72
    pub s_max_transaction: u32,
    /// 76
    pub s_max_trans_data: u32,
    /// 80
    pub s_checksum_type: u8,
    /// 252
    pub s_checksum: u32,
}

impl RawJournalSuperblock {
    /// Whether each field is what the bytes `s` hold at its offset.
    pub open spec fn reads(&self, s: Seq<u8>) -> bool {
        &&& self.h_magic == bytes::be32(s, 0)
        &&& self.h_blocktype == bytes::be32(s, 4)
        &&& self.h_sequence == bytes::be32(s, 8)
        &&& self.s_blocksize == bytes::be32(s, 12)
        &&& self.s_maxlen == bytes::be32(s, 16)
        &&& self.s_first == bytes::be32(s, 20)
        &&& self.s_sequence == bytes::be32(s, 24)
        &&& self.s_start == bytes::be32(s, 28)
        &&& self.s_errno == bytes::be32(s, 32) as i32
        &&& self.s_feature_compat == bytes::be32(s, 36)
        &&& self.s_feature_incompat == bytes::be32(s, 40)
        &&& self.s_feature_ro_compat == bytes::be32(s, 44)
        &&& self.s_uuid@ == s.subrange(48, 64)
        &&& self.s_nr_users == bytes::be32(s, 64)
        &&& self.s_dynsuper == bytes::be32(s, 68)
        &&& self.s_max_transaction == bytes::be32(s, 72)
        &&& self.s_max_trans_data == bytes::be32(s, 76)
        &&& self.s_checksum_type == s[80]
        &&& self.s_checksum == bytes::be32(s, 252)
    }

    /// Read the fields out of `s`; `None` unless `s` is 1024 bytes long.
    pub fn read_from(s: &[u8]) -> (r: Option<RawJournalSuperblock>)
        ensures
            r is Some <==> s@.len() == 1024,
            r is Some ==> r->Some_0.reads(s@),
    {
        if s.len() != JOURNAL_SUPERBLOCK_SIZE {
            return None;
        }
        Some(
            RawJournalSuperblock {
                h_magic: bytes::get_u32_be(s, 0),
                h_blocktype: bytes::get_u32_be(s, 4),
                h_sequence: bytes::get_u32_be(s, 8),
                s_blocksize: bytes::get_u32_be(s, 12),
                s_maxlen: bytes::get_u32_be(s, 16),
                s_first: bytes::get_u32_be(s, 20),
                s_sequence: bytes::get_u32_be(s, 24),
                s_start: bytes::get_u32_be(s, 28),
                s_errno: bytes::get_u32_be(s, 32) as i32,
                s_feature_compat: bytes::get_u32_be(s, 36),
                s_feature_incompat: bytes::get_u32_be(s, 40),
                s_feature_ro_compat: bytes::get_u32_be(s, 44),
                s_uuid: bytes::copy16(s, 48),
                s_nr_users: bytes::get_u32_be(s, 64),
                s_dynsuper: bytes::get_u32_be(s, 68),
                s_max_transaction: bytes::get_u32_be(s, 72),
                s_max_trans_data: bytes::get_u32_be(s, 76),
                s_checksum_type: s[80],
                s_checksum: bytes::get_u32_be(s, 252),
            },
        )
    }
}

/// What the driver keeps of the journal's superblock.
#[derive(Debug, Clone, Copy)]
pub struct JournalSuperblock {
    pub block_size: u32,
    pub total_blocks: u32,
    pub first_usable_block: u32,
    pub start_sequence: u32,
    /// Where the log starts; 0 where the journal is clean.
    pub start_block: u32,
    pub errno: i32,
    pub feature_incompat: u32,
    pub uuid: [u8; 16],
}

impl JournalSuperblock {
    pub open spec fn clean(self) -> bool {
        self.start_block == 0
    }

    pub open spec fn wide(self) -> bool {
        self.feature_incompat & JBD2_FEATURE_INCOMPAT_64BIT != 0
    }

    pub open spec fn checksummed(self) -> bool {
        self.feature_incompat & JBD2_FEATURE_INCOMPAT_CSUM_V3 != 0
    }

    pub fn is_clean(&self) -> (r: bool)
        ensures
            r == self.clean(),
    {
        self.start_block == 0
    }

    pub fn needs_recovery(&self) -> (r: bool)
        ensures
            r == !self.clean(),
    {
        self.start_block != 0
    }

    pub fn has_64bit(&self) -> (r: bool)
        ensures
            r == self.wide(),
    {
        self.feature_incompat & JBD2_FEATURE_INCOMPAT_64BIT != 0
    }

    pub fn has_csum_v3(&self) -> (r: bool)
        ensures
            r == self.checksummed(),
    {
        self.feature_incompat & JBD2_FEATURE_INCOMPAT_CSUM_V3 != 0
    }

    /// Whether this is what the raw superblock says.
    pub open spec fn keeps(self, raw: RawJournalSuperblock) -> bool {
        &&& self.block_size == raw.s_blocksize
        &&& self.total_blocks == raw.s_maxlen
        &&& self.first_usable_block == raw.s_first
        &&& self.start_sequence == raw.s_sequence
        &&& self.start_block == raw.s_start
        &&& self.errno == raw.s_errno
        &&& self.feature_incompat == raw.s_feature_incompat
        &&& self.uuid@ == raw.s_uuid@
    }
}

/// What is wrong with the journal's superblock, if anything. The first usable
/// block lies behind the superblock, and inside the journal.
pub open spec fn fault(magic: u32, incompat: u32, total: u32, first: u32) -> Option<
    JournalError,
> {
    if magic != JOURNAL_MAGIC {
        Some(JournalError::BadMagic(magic))
    } else if incompat & !SUPPORTED_INCOMPAT != 0 {
        Some(JournalError::UnsupportedFeatures(incompat & !SUPPORTED_INCOMPAT))
    } else if first == 0 || first >= total {
        Some(JournalError::InvalidGeometry(total, first))
    } else {
        None
    }
}

/// Validate a journal superblock.
pub fn parse(raw: &RawJournalSuperblock) -> (r: Result<JournalSuperblock, JournalError>)
    ensures
        match fault(raw.h_magic, raw.s_feature_incompat, raw.s_maxlen, raw.s_first) {
            Some(e) => r is Err && r->Err_0 == e,
            None => r is Ok && r->Ok_0.keeps(*raw),
        },
{
    if raw.h_magic != JOURNAL_MAGIC {
        return Err(JournalError::BadMagic(raw.h_magic));
    }
    let unsupported: u32 = raw.s_feature_incompat & !SUPPORTED_INCOMPAT;
    if unsupported != 0 {
        return Err(JournalError::UnsupportedFeatures(unsupported));
    }
    if raw.s_first == 0 || raw.s_first >= raw.s_maxlen {
        return Err(JournalError::InvalidGeometry(raw.s_maxlen, raw.s_first));
    }
    Ok(
        JournalSuperblock {
            block_size: raw.s_blocksize,
            total_blocks: raw.s_maxlen,
            first_usable_block: raw.s_first,
            start_sequence: raw.s_sequence,
            start_block: raw.s_start,
            errno: raw.s_errno,
            feature_incompat: raw.s_feature_incompat,
            uuid: raw.s_uuid,
        },
    )
}

} // verus!
