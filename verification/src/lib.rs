//! Parsing and validation of `.env`-style files.

pub mod chars;
pub mod env_map;
pub mod error;
pub mod format;
pub mod order;
pub mod parse;
pub mod report;
pub mod validate;
