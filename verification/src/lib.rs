//! A store of named boolean conditions kept as bits of one `u64`, with named
//! AND masks evaluated over them.

pub mod commands;
pub mod json;
pub mod models;
pub mod storage;
pub mod text;
