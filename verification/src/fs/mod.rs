//! Walks over trees of files.

pub mod dir_iter;

pub use dir_iter::{DirIterator, DirStep, DirTraverse};
