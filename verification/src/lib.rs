//! Verified core of the DBMorph data pipeline: the SQL dump reader, row
//! hygiene, type inference, identifier and statement building for SQLite,
//! batching of rows, reading Parquet output back, JSON and delimited input
//! as rows, the encoding guess, and the small text rules of the terminal
//! and the command line.

pub mod config;
pub mod text;
pub mod sql_lex;
pub mod sql_dump;
pub mod rows;
pub mod infer;
pub mod sqlite;
pub mod batch;
pub mod args;
pub mod readback;
pub mod display;
pub mod encoding;
pub mod json;
pub mod delimited;
