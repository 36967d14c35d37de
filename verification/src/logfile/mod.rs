//! A log file: a sequence of blocks in a flat buffer, each pointing back to
//! earlier ones.

pub mod block;
pub mod logfile;
pub mod stored;
pub use logfile::{FlatBuff, LogErr, LogFile};
