use vstd::prelude::*;
use crate::bbuff::absbuff::ABuffError;
use crate::logfile::LogErr;
use crate::logfile::block::{BlockId, FileOffset};
use super::log_id::LogIdReadWriteErr;
use super::new_file::NewFileGeneratorErr;

verus! {

/// What goes wrong in a queue of log files; `FILE` names a file, `LogId`
/// identifies a log file.
#[derive(Clone, Debug)]
pub enum LoqErr<FILE, LogId> {
    /// The number of records of a log could not be read.
    CantReadRecordsCount { file: FILE, error: LogErr },
    /// The block that holds a log's identity could not be read.
    CantReadLogId { file: FILE, error: LogErr, log_id_type: String },
    /// The block that holds a log's identity does not hold one.
    CantParseLogId { file: FILE, error: LogIdReadWriteErr, log_id_type: String },
    /// The template of file names does not parse.
    CantParsePathTemplate { error: String, template: String },
    /// No new file could be made.
    CantGenerateNewFile { error: NewFileGeneratorErr },
    /// The queue could not be locked for writing.
    CantCaptureWriteLock { error: String },
    /// A file's buffer could not be opened.
    OpenFileBuff { file: FILE, error: ABuffError },
    /// A log could not be opened.
    OpenLog { file: FILE, error: LogErr },
    /// More than one file could start the queue.
    OpenTwoHeads { heads: Vec<(FILE, LogId)> },
    /// No file can start the queue.
    OpenNoHeads,
    /// An identity cannot be written into a log that holds records.
    LogNotEmpty { file: FILE },
    /// Several files carry one identity.
    OpenLogDuplicateId { id: LogId, files: Vec<FILE> },
    /// A file the queue needs is missing.
    OpenLogNotFound { prev_file: FILE, prev_id: LogId, next_file: FILE, next_id: LogId },
    /// A log's identity could not be put in a block.
    LogIdWrite { file: FILE, error: LogIdReadWriteErr },
    /// A log's identity could not be written.
    LogIdWrite2 { file: FILE, error: LogErr },
    /// Data could not be written to a log.
    LogDataWrite { file: FILE, error: LogErr },
    /// The records of a log could not be counted.
    LogCountFail { file: FILE, error: LogErr },
    /// No log has the identity.
    LogIdNotMatched { log_id: LogId },
    /// A block of a log could not be read.
    LogGetBlock { file: FILE, error: LogErr, block_id: BlockId },
    /// Raw bytes of a log could not be read.
    LogRawRead { file: FILE, log_id: LogId, pos: FileOffset, data_size: usize, error: LogErr },
}

} // verus!
