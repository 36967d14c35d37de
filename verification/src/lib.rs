//! Log files made of self-describing blocks, a queue of such files, and the
//! small text parsers that configure them.

pub mod text;
pub mod parse;
pub mod bbuff;
pub mod logfile;
pub mod logqueue;
pub mod perf;
pub mod range;
pub mod fs;
pub mod lookup;
pub mod tracks;
