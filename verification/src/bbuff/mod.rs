//! Byte buffers: one read and written in sequence, and flat stores read and
//! written at absolute positions.

pub mod streambuff;
pub mod absbuff;
