//! Local-first memory store for a coding assistant.
//!
//! Items are small typed records kept in a newline-delimited text file or an
//! embedded relational table.  This crate holds the verified core: the record
//! codec, the store operations, the recall ranking engine, the secret
//! redactor, and the compaction and preamble utilities.  File and database
//! handles live outside the crate; callers hand content in and out as plain
//! strings.

pub mod cli;
pub mod codec;
pub mod factory;
pub mod item_codec;
pub mod logger;
pub mod migrate;
pub mod recall;
pub mod redact;
pub mod sqlite;
pub mod store;
pub mod text;
pub mod types;
