//! A queue of log files, each file naming the one it follows.

pub mod err;
pub mod log_id;
pub mod new_file;
pub mod path_tmpl;
pub mod find_logs;
pub mod log_seq_verifier;
pub mod log_api;
pub mod log_queue;
pub mod logs_open;
pub use err::LoqErr;
