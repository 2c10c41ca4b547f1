use vstd::prelude::*;

verus! {

/// Rows buffered per write/insert batch when the command line gives none.
pub const DEFAULT_BATCH_SIZE: u32 = 50_000;

/// Modern SQLite bound-parameter ceiling (SQLITE_MAX_VARIABLE_NUMBER).
/// A multi-row INSERT is split so that rows * columns never exceeds this.
pub const SQLITE_MAX_PARAMS: usize = 32_766;

/// 64 MiB negative cache_size => pages held in RAM, not on disk.
pub const SQLITE_CACHE_KIB: i64 = 65_536;

/// Sequential read buffer for CSV/text input.
pub const READ_BUFFER_BYTES: usize = 1_048_576;

/// Buffered writer capacity for Parquet output.
pub const WRITE_BUFFER_BYTES: usize = 1_048_576;

/// Batch size for the streaming Parquet record reader.
pub const PARQUET_READ_BATCH: usize = 8_192;

/// Rows shown in the preview before the user confirms.
pub const PREVIEW_ROWS: usize = 5;

/// Columns shown in the preview before the user confirms.
pub const PREVIEW_COLS: usize = 5;

/// Longest field, in characters, kept by default.
pub const MAX_FIELD_CHARS: usize = 255;

/// Rows sampled for Parquet column type inference.
pub const PARQUET_INFER_SAMPLE: usize = 1_000;

/// Capacity of the channel between the SQLite reader thread and the writer.
pub const SQLITE_STREAM_CHANNEL: usize = 1_024;

/// A row wider than `expected * SQL_TUPLE_FIELD_FACTOR` (and than
/// `SQL_TUPLE_FIELD_MIN`) is dropped instead of being realigned.
pub const SQL_TUPLE_FIELD_FACTOR: usize = 4;

/// Lower bound of the width above which a malformed row is dropped.
pub const SQL_TUPLE_FIELD_MIN: usize = 64;

/// Malformed-row warnings printed before further ones are suppressed.
pub const SKIP_WARN_LIMIT: u64 = 20;

/// Bytes read from the start of a text input to guess its encoding.
pub const ENCODING_SAMPLE_BYTES: usize = 10_000;

} // verus!
