//! A block of a log file: a head, the data, and a tail that points back to
//! the head.
//!
//! The head holds, in little-endian order: the head's size (`u32`), the
//! data's size (`u32`), the tail's size (`u16`), the block's number (`u32`),
//! the kind of data (`u32`), the number of back references (`u32`), each
//! back reference as a block number (`u32`) and an offset (`u64`), and the
//! block's options: their count (`u64`) and each key (`u16` size and UTF-8
//! bytes) and value (`u32` size and UTF-8 bytes). The tail is the four bytes
//! `TAIL` and the block's total size (`u32`).

pub mod ids;
pub mod limit;
pub mod err;
pub mod string_n;
pub mod blockopts;
pub mod head;
pub mod block;
pub use ids::{BlockId, DataId, FileOffset};
pub use limit::Limit;
pub use err::BlockErr;
pub use string_n::{String16, String32};
pub use blockopts::BlockOptions;
pub use block::{Block, Tail};
pub use head::{BackRefs, BlockHead, BlockHeadRead, BlockHeadSize, BlockDataSize, BlockTailSize};
