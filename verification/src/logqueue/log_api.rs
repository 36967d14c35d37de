//! What a queue of logs offers: records to write, read and walk through.

use vstd::prelude::*;
use vstd::bytes::{spec_u32_to_le_bytes, u32_to_le_bytes};
use crate::logfile::block::{BlockOptions, BlockId, FileOffset, BlockHeadSize, BlockDataSize, BlockTailSize};
use crate::logfile::logfile::LogErr;
use super::err::LoqErr;

verus! {

/// Walks to the records next to a record.
pub trait LogNavigationNear {
    /// How a record is named.
    type RecordId: Sized;

    type FILE: Clone;
    type LogId: Clone;

    /// The record after `record_id`, if any.
    fn next_record(self, record_id: Self::RecordId) -> Result<Option<Self::RecordId>, LoqErr<Self::FILE, Self::LogId>>;

    /// The record before `record_id`, if any.
    fn previous_record(self, record_id: Self::RecordId) -> Result<Option<Self::RecordId>, LoqErr<Self::FILE, Self::LogId>>;
}

/// Walks to the end of a queue.
pub trait LogNavigateLast {
    /// How a record is named.
    type RecordId: Sized;

    type FILE: Clone;
    type LogId: Clone;

    /// The last record of the queue, if any.
    fn last_record(self) -> Result<Option<Self::RecordId>, LoqErr<Self::FILE, Self::LogId>>;
}

/// Where a record lies and what its block says of it.
pub struct RecordInfo<FILE, LogId> {
    /// The log file.
    pub log_file: FILE,
    /// The identity of the log file.
    pub log_id: LogId,
    /// The block of the record.
    pub block_id: BlockId,
    /// The options of the block.
    pub block_options: BlockOptions,
    /// Where the block starts in the file.
    pub position: FileOffset,
    /// The size of the block's head.
    pub head_size: BlockHeadSize,
    /// The size of the data after the head.
    pub data_size: BlockDataSize,
    /// The size of the tail after the data.
    pub tail_size: BlockTailSize,
}

/// Reads records.
pub trait LogReading {
    /// How a record is named.
    type RecordId: Sized;

    type FILE: Clone;
    type LogId: Clone;

    /// The record `record_id`: its data and options.
    fn read(self, record_id: Self::RecordId) -> Result<PreparedRecord, LoqErr<Self::FILE, Self::LogId>>;

    /// Where the record `record_id` lies, and its options.
    fn info(self, record_id: Self::RecordId) -> Result<RecordInfo<Self::FILE, Self::LogId>, LoqErr<Self::FILE, Self::LogId>>;
}

/// A record ready to be written: its data and the options of its block.
pub struct PreparedRecord {
    pub data: Vec<u8>,
    pub options: BlockOptions,
}

impl PreparedRecord {
    /// A record of the four little-endian bytes of `value`, with no option.
    pub fn from_i32(value: i32) -> (r: PreparedRecord)
        ensures
            r.data@ == spec_u32_to_le_bytes(value as u32),
            r.options@.len() == 0,
    {
        PreparedRecord { data: u32_to_le_bytes(value as u32), options: BlockOptions::default() }
    }
}

/// A failed write into a log.
pub struct LogWriteErr(pub LogErr);

/// Writes records.
pub trait LogWriting<RecordId> {
    type FILE: Clone;
    type LogId: Clone;

    /// Writes `record` as the new last record; returns its name.
    fn write(self, record: &PreparedRecord) -> Result<RecordId, LoqErr<Self::FILE, Self::LogId>>;
}

} // verus!
