//! How a queue finds, opens and checks its log files: strategies that the
//! caller supplies. Each says, by a relation of its own, what its call may
//! give; nothing more is known of it.

use vstd::prelude::*;
use super::err::LoqErr;
use super::log_seq_verifier::OrderedLogs;

verus! {

/// Finds the log files of a queue.
pub trait FindFiles<FILE, LogId> {
    /// `r` is what a search for the files may give.
    spec fn finds(&self, r: Result<Vec<FILE>, LoqErr<FILE, LogId>>) -> bool;

    fn find_files(&self) -> (r: Result<Vec<FILE>, LoqErr<FILE, LogId>>)
        ensures
            self.finds(r),
    ;
}

/// Opens a log file.
pub trait OpenLogFile<FILE, LOG, LogId> {
    /// `r` is what opening `file` may give.
    spec fn opens(&self, file: FILE, r: Result<LOG, LoqErr<FILE, LogId>>) -> bool;

    fn open_log_file(&self, file: FILE) -> (r: Result<LOG, LoqErr<FILE, LogId>>)
        ensures
            self.opens(file, r),
    ;
}

/// Checks that opened log files form a queue, and orders them.
pub trait ValidateLogFiles<FILE, LOG, LogId> {
    /// `r` is what checking `log_files` may give.
    spec fn validates(&self, log_files: Vec<(FILE, LOG)>, r: Result<OrderedLogs<(FILE, LOG)>, LoqErr<FILE, LogId>>) -> bool;

    fn validate(&self, log_files: Vec<(FILE, LOG)>) -> (r: Result<OrderedLogs<(FILE, LOG)>, LoqErr<FILE, LogId>>)
        ensures
            self.validates(log_files, r),
    ;
}

} // verus!
