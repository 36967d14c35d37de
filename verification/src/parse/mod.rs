//! Parsers of small text fragments: numbers, keywords, durations, templates
//! and wildcard patterns.

pub mod substr;
pub mod parser;
pub mod digit;
pub mod number;
pub mod keyword;
pub mod combo;
pub mod ws;
pub mod duration;
pub mod template;
pub mod wildcard;
