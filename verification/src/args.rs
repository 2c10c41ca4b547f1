//! The command line's values and the decisions taken from them: which
//! reader and writer run, the field delimiter, the Parquet codec.

use vstd::prelude::*;
use vstd::string::StringExecFns;
use vstd::utf8::encode_utf8;
use crate::text::{str_equal, push_signed, signed_decimal};

verus! {

/// Parquet compression codec.
#[derive(Copy, Clone, Debug, PartialEq, Eq, Structural)]
pub enum Compression {
    Zstd,
    Snappy,
    Gzip,
    Brotli,
    Lz4,
    Uncompressed,
}

/// The options of one run.
#[derive(Debug)]
pub struct AppArgs {
    /// Input file path.
    pub input_path: String,
    /// Output file path (extension added automatically).
    pub output_path: String,
    /// Source format: csv, txt, json, jsonl, ndjson, parquet, sql, dump, sqlite.
    pub input_file_type: String,
    /// Target format: sqlite, parquet, csv.
    pub database_type: String,
    /// Destination table name (sqlite target); `main` means "as in the source".
    pub table_name: String,
    /// Input encoding (auto-detected when omitted).
    pub encoding: Option<String>,
    /// Field delimiter for csv/txt input and csv output.
    pub delimiter: u8,
    /// Parquet compression codec.
    pub compression: Compression,
    /// Compression level (codec default when omitted).
    pub level: Option<i32>,
    /// Rows buffered per write/insert batch.
    pub batch_size: u32,
    /// Drop the target table before inserting (sqlite target).
    pub drop_existing: bool,
    /// Treat the first csv/txt row as data, not column names.
    pub no_header: bool,
    /// Longest field kept, in characters (0 keeps fields whole).
    pub max_field: usize,
    /// Refuse malformed rows instead of realigning them.
    pub strict: bool,
    /// Read csv/txt input without quote handling.
    pub no_quote: bool,
    /// Infer Parquet column types from a sample instead of writing text.
    pub infer_types: bool,
}

// ----------------------------------------------------------------------
// delimiter
// ----------------------------------------------------------------------

/// The delimiter byte a command-line value stands for: `t`, `n`, `r` (or
/// their backslash forms) name tab, line feed and carriage return; any
/// other value gives its first byte, and the empty value a comma.
pub open spec fn delimiter_of(raw: Seq<char>) -> u8 {
    if raw == "t"@ || raw == "\\t"@ {
        9
    } else if raw == "n"@ || raw == "\\n"@ {
        10
    } else if raw == "r"@ || raw == "\\r"@ {
        13
    } else if raw.len() == 0 {
        44
    } else {
        encode_utf8(raw)[0]
    }
}

/// The delimiter names: `t`, `n`, `r` and their backslash forms give tab,
/// line feed and carriage return; the empty value gives a comma; any other
/// single ASCII character gives that character's byte.
pub proof fn law_delimiter_values(c: char)
    requires
        (c as u32) < 0x80,
        c != 't',
        c != 'n',
        c != 'r',
    ensures
        delimiter_of(seq![c]) == (c as u32) as u8,
        delimiter_of(Seq::empty()) == 44,
        delimiter_of("t"@) == 9 && delimiter_of("\\t"@) == 9,
        delimiter_of("n"@) == 10 && delimiter_of("\\n"@) == 10,
        delimiter_of("r"@) == 13 && delimiter_of("\\r"@) == 13,
{
    reveal_strlit("t");
    reveal_strlit("\\t");
    reveal_strlit("n");
    reveal_strlit("\\n");
    reveal_strlit("r");
    reveal_strlit("\\r");
    let s = seq![c];
    assert(s != "t"@ && s != "n"@ && s != "r"@) by {
        assert("t"@[0] == 't');
        assert("n"@[0] == 'n');
        assert("r"@[0] == 'r');
    }
    assert(s.len() != "\\t"@.len());
    assert(s.drop_first() =~= Seq::<char>::empty());
    let v = c as u32;
    assert(((v & 0x7F) as u8) == (v as u8)) by (bit_vector)
        requires
            v < 0x80,
    ;
    assert(encode_utf8(s) =~= seq![(v as u8)]) by {
        reveal_with_fuel(encode_utf8, 2);
    }
    assert("n"@ != "t"@ && "r"@ != "t"@ && "r"@ != "n"@) by {
        assert("n"@[0] != "t"@[0] && "r"@[0] != "t"@[0] && "r"@[0] != "n"@[0]);
    }
    assert("\\n"@ != "\\t"@ && "\\r"@ != "\\t"@ && "\\r"@ != "\\n"@) by {
        assert("\\n"@[1] != "\\t"@[1] && "\\r"@[1] != "\\t"@[1] && "\\r"@[1] != "\\n"@[1]);
    }
    assert("n"@.len() != "\\t"@.len() && "r"@.len() != "\\t"@.len() && "r"@.len() != "\\n"@.len());
    assert("\\n"@.len() != "t"@.len() && "\\r"@.len() != "t"@.len() && "\\r"@.len() != "n"@.len());
    assert(Seq::<char>::empty() != "t"@ && Seq::<char>::empty() != "\\t"@);
    assert(Seq::<char>::empty() != "n"@ && Seq::<char>::empty() != "\\n"@);
    assert(Seq::<char>::empty() != "r"@ && Seq::<char>::empty() != "\\r"@);
}

/// Parses the `--delimiter` value; it never fails.
pub fn parse_delimiter(raw: &str) -> (r: Result<u8, String>)
    ensures
        r == Ok::<u8, String>(delimiter_of(raw@)),
{
    if str_equal(raw, "t") || str_equal(raw, "\\t") {
        return Ok(9);
    }
    if str_equal(raw, "n") || str_equal(raw, "\\n") {
        return Ok(10);
    }
    if str_equal(raw, "r") || str_equal(raw, "\\r") {
        return Ok(13);
    }
    let bytes = raw.as_bytes();
    if bytes.len() == 0 {
        proof {
            vstd::utf8::encode_utf8_decode_utf8(raw@);
            assert(raw@.len() == 0) by {
                if raw@.len() > 0 {
                    vstd::utf8::encode_utf8_first_scalar(raw@);
                }
            }
        }
        return Ok(44);
    }
    proof {
        assert(raw@.len() > 0) by {
            if raw@.len() == 0 {
                assert(encode_utf8(raw@) =~= Seq::<u8>::empty());
            }
        }
    }
    Ok(bytes[0])
}

/// The options as the command line gives them, before the project's own
/// value parsing: the delimiter is still the raw text the user typed.
#[derive(Debug)]
pub struct RawArgs {
    pub input_path: String,
    pub output_path: String,
    pub input_file_type: String,
    pub database_type: String,
    pub table_name: String,
    pub encoding: Option<String>,
    /// The `--delimiter` value as typed.
    pub delimiter: String,
    pub compression: Compression,
    pub level: Option<i32>,
    pub batch_size: u32,
    pub drop_existing: bool,
    pub no_header: bool,
    pub max_field: usize,
    pub strict: bool,
    pub no_quote: bool,
    pub infer_types: bool,
}

/// The options of a run from the command line's values: every option is
/// taken over as given, and the delimiter is the byte its text stands for.
pub fn parse_args(raw: RawArgs) -> (a: AppArgs)
    ensures
        a.input_path@ == raw.input_path@,
        a.output_path@ == raw.output_path@,
        a.input_file_type@ == raw.input_file_type@,
        a.database_type@ == raw.database_type@,
        a.table_name@ == raw.table_name@,
        a.encoding == raw.encoding,
        a.delimiter == delimiter_of(raw.delimiter@),
        a.compression == raw.compression,
        a.level == raw.level,
        a.batch_size == raw.batch_size,
        a.drop_existing == raw.drop_existing,
        a.no_header == raw.no_header,
        a.max_field == raw.max_field,
        a.strict == raw.strict,
        a.no_quote == raw.no_quote,
        a.infer_types == raw.infer_types,
{
    let delimiter = match parse_delimiter(raw.delimiter.as_str()) {
        Ok(d) => d,
        Err(_) => 44,
    };
    AppArgs {
        input_path: raw.input_path,
        output_path: raw.output_path,
        input_file_type: raw.input_file_type,
        database_type: raw.database_type,
        table_name: raw.table_name,
        encoding: raw.encoding,
        delimiter,
        compression: raw.compression,
        level: raw.level,
        batch_size: raw.batch_size,
        drop_existing: raw.drop_existing,
        no_header: raw.no_header,
        max_field: raw.max_field,
        strict: raw.strict,
        no_quote: raw.no_quote,
        infer_types: raw.infer_types,
    }
}

// ----------------------------------------------------------------------
// what runs
// ----------------------------------------------------------------------

/// Where the data goes.
#[derive(Copy, Clone, Debug, PartialEq, Eq, Structural)]
pub enum Target {
    Sqlite,
    Parquet,
    Csv,
}

/// Where the data comes from.
#[derive(Copy, Clone, Debug, PartialEq, Eq, Structural)]
pub enum Source {
    Csv,
    Json,
    Sql,
    Sqlite,
    Parquet,
}

pub open spec fn target_of(s: Seq<char>) -> Option<Target> {
    if s == "sqlite"@ {
        Some(Target::Sqlite)
    } else if s == "parquet"@ {
        Some(Target::Parquet)
    } else if s == "csv"@ {
        Some(Target::Csv)
    } else {
        None
    }
}

/// The writer named by `--to`; `None` for an unknown target.
pub fn target_kind(database_type: &str) -> (r: Option<Target>)
    ensures
        r == target_of(database_type@),
{
    if str_equal(database_type, "sqlite") {
        Some(Target::Sqlite)
    } else if str_equal(database_type, "parquet") {
        Some(Target::Parquet)
    } else if str_equal(database_type, "csv") {
        Some(Target::Csv)
    } else {
        None
    }
}

pub open spec fn source_of(s: Seq<char>) -> Option<Source> {
    if s == "csv"@ || s == "txt"@ {
        Some(Source::Csv)
    } else if s == "json"@ || s == "jsonl"@ || s == "ndjson"@ {
        Some(Source::Json)
    } else if s == "sql"@ || s == "dump"@ {
        Some(Source::Sql)
    } else if s == "sqlite"@ {
        Some(Source::Sqlite)
    } else if s == "parquet"@ {
        Some(Source::Parquet)
    } else {
        None
    }
}

/// The reader named by `--from`; `None` for an unknown source.
pub fn source_kind(input_file_type: &str) -> (r: Option<Source>)
    ensures
        r == source_of(input_file_type@),
{
    if str_equal(input_file_type, "csv") || str_equal(input_file_type, "txt") {
        Some(Source::Csv)
    } else if str_equal(input_file_type, "json") || str_equal(input_file_type, "jsonl") || str_equal(
        input_file_type,
        "ndjson",
    ) {
        Some(Source::Json)
    } else if str_equal(input_file_type, "sql") || str_equal(input_file_type, "dump") {
        Some(Source::Sql)
    } else if str_equal(input_file_type, "sqlite") {
        Some(Source::Sqlite)
    } else if str_equal(input_file_type, "parquet") {
        Some(Source::Parquet)
    } else {
        None
    }
}

/// The source formats recognized, by name: `csv`/`txt` as CSV, `json`,
/// `jsonl`, `ndjson` as JSON, `sql`/`dump` as a SQL dump, `sqlite`,
/// `parquet`; any other name is unknown.
pub proof fn law_source_names(s: Seq<char>)
    ensures
        (s == "csv"@ || s == "txt"@) ==> source_of(s) == Some(Source::Csv),
        (s == "json"@ || s == "jsonl"@ || s == "ndjson"@) ==> source_of(s) == Some(Source::Json),
        (s == "sql"@ || s == "dump"@) ==> source_of(s) == Some(Source::Sql),
        s == "sqlite"@ ==> source_of(s) == Some(Source::Sqlite),
        s == "parquet"@ ==> source_of(s) == Some(Source::Parquet),
        source_of(s) is Some <==> set!["csv"@, "txt"@, "json"@, "jsonl"@, "ndjson"@, "sql"@, "dump"@, "sqlite"@, "parquet"@].contains(s),
{
    reveal_strlit("csv");
    reveal_strlit("txt");
    reveal_strlit("json");
    reveal_strlit("jsonl");
    reveal_strlit("ndjson");
    reveal_strlit("sql");
    reveal_strlit("dump");
    reveal_strlit("sqlite");
    reveal_strlit("parquet");
    assert("csv"@[0] != "json"@[0] && "csv"@[0] != "sql"@[0] && "txt"@[0] != "sql"@[0]);
    assert("txt"@[0] != "json"@[0] && "json"@.len() != "jsonl"@.len());
    assert("dump"@[0] != "json"@[0] && "sql"@.len() != "sqlite"@.len() && "sqlite"@[0] != "ndjson"@[0]);
}

/// The target formats recognized, by name: `sqlite`, `parquet`, `csv`; any
/// other name is unknown.
pub proof fn law_target_names(s: Seq<char>)
    ensures
        s == "sqlite"@ ==> target_of(s) == Some(Target::Sqlite),
        s == "parquet"@ ==> target_of(s) == Some(Target::Parquet),
        s == "csv"@ ==> target_of(s) == Some(Target::Csv),
        target_of(s) is Some <==> set!["sqlite"@, "parquet"@, "csv"@].contains(s),
{
    reveal_strlit("sqlite");
    reveal_strlit("parquet");
    reveal_strlit("csv");
    assert("parquet"@.len() != "sqlite"@.len() && "csv"@.len() != "sqlite"@.len() && "csv"@.len() != "parquet"@.len());
}

/// Which sources each writer reads: every writer reads every source but
/// its own format (a Parquet file is not rewritten as Parquet, nor a
/// SQLite database as SQLite; CSV can be rewritten as CSV).
pub open spec fn pair_supported(t: Target, s: Source) -> bool {
    match t {
        Target::Csv => true,
        Target::Parquet => s != Source::Parquet,
        Target::Sqlite => s != Source::Sqlite,
    }
}

/// Whether the writer reads the given source.
pub fn supports(t: Target, s: Source) -> (r: bool)
    ensures
        r == pair_supported(t, s),
{
    match t {
        Target::Csv => true,
        Target::Parquet => match s {
            Source::Parquet => false,
            _ => true,
        },
        Target::Sqlite => match s {
            Source::Sqlite => false,
            _ => true,
        },
    }
}

/// The table to read from a SQL dump: any (`None`) when the table name is
/// the default `main`.
pub fn wanted_table(table_name: &str) -> (r: Option<String>)
    ensures
        table_name@ == "main"@ ==> r is None,
        table_name@ != "main"@ ==> (r matches Some(t) && t@ == table_name@),
{
    if str_equal(table_name, "main") {
        None
    } else {
        Some(String::from_str(table_name))
    }
}

/// The SQLite table a SQL dump is loaded into: the dump's own table when
/// the table name is the default `main`.
pub fn dest_table(table_name: &str, source_table: &str) -> (r: String)
    ensures
        r@ == (if table_name@ == "main"@ {
            source_table@
        } else {
            table_name@
        }),
{
    if str_equal(table_name, "main") {
        String::from_str(source_table)
    } else {
        String::from_str(table_name)
    }
}

// ----------------------------------------------------------------------
// Parquet codec
// ----------------------------------------------------------------------

/// A codec with its level, ready for the Parquet writer.
#[derive(Copy, Clone, Debug, PartialEq, Eq, Structural)]
pub enum Codec {
    Zstd(i32),
    Snappy,
    Gzip(u32),
    Brotli(u32),
    Lz4,
    Uncompressed,
}

/// A compression level outside the codec's range.
#[derive(Copy, Clone, Debug, PartialEq, Eq, Structural)]
pub struct LevelError {
    pub codec: Compression,
    pub level: i32,
    /// Lowest level accepted.
    pub min: i32,
    /// Highest level accepted.
    pub max: i32,
}

/// The codec for `--compression` and `--level`: zstd defaults to level 3
/// and accepts 1..=22, gzip defaults to 6 and accepts 0..=9, brotli
/// defaults to 5 and accepts 0..=11 (the documented levels, all of them
/// accepted by the Parquet writer); the other codecs take no level.
pub open spec fn codec_of(c: Compression, level: Option<i32>) -> Result<Codec, LevelError> {
    match c {
        Compression::Zstd => {
            let l = match level { Some(l) => l, None => 3 };
            if 1 <= l && l <= 22 {
                Ok(Codec::Zstd(l))
            } else {
                Err(LevelError { codec: c, level: l, min: 1i32, max: 22i32 })
            }
        },
        Compression::Snappy => Ok(Codec::Snappy),
        Compression::Gzip => {
            let l = match level { Some(l) => l, None => 6 };
            if 0 <= l && l <= 9 {
                Ok(Codec::Gzip(l as u32))
            } else {
                Err(LevelError { codec: c, level: l, min: 0i32, max: 9i32 })
            }
        },
        Compression::Brotli => {
            let l = match level { Some(l) => l, None => 5 };
            if 0 <= l && l <= 11 {
                Ok(Codec::Brotli(l as u32))
            } else {
                Err(LevelError { codec: c, level: l, min: 0i32, max: 11i32 })
            }
        },
        Compression::Lz4 => Ok(Codec::Lz4),
        Compression::Uncompressed => Ok(Codec::Uncompressed),
    }
}

/// Each codec that takes a level carries exactly the level given when it
/// lies in the documented range (zstd 1..=22, gzip 0..=9, brotli 0..=11),
/// refuses it otherwise, and uses its default (3, 6, 5) when none is given;
/// the other codecs ignore the level.
pub proof fn law_codec_keeps_the_given_level(l: i32)
    ensures
        codec_of(Compression::Zstd, Some(l)) == (if 1 <= l <= 22 {
            Ok::<Codec, LevelError>(Codec::Zstd(l))
        } else {
            Err(LevelError { codec: Compression::Zstd, level: l, min: 1, max: 22 })
        }),
        codec_of(Compression::Gzip, Some(l)) == (if 0 <= l <= 9 {
            Ok::<Codec, LevelError>(Codec::Gzip(l as u32))
        } else {
            Err(LevelError { codec: Compression::Gzip, level: l, min: 0, max: 9 })
        }),
        codec_of(Compression::Brotli, Some(l)) == (if 0 <= l <= 11 {
            Ok::<Codec, LevelError>(Codec::Brotli(l as u32))
        } else {
            Err(LevelError { codec: Compression::Brotli, level: l, min: 0, max: 11 })
        }),
        0 <= l ==> (codec_of(Compression::Gzip, Some(l)) matches Ok(Codec::Gzip(g)) ==> g as int == l as int),
        0 <= l ==> (codec_of(Compression::Brotli, Some(l)) matches Ok(Codec::Brotli(g)) ==> g as int == l as int),
        codec_of(Compression::Zstd, None) == Ok::<Codec, LevelError>(Codec::Zstd(3)),
        codec_of(Compression::Gzip, None) == Ok::<Codec, LevelError>(Codec::Gzip(6)),
        codec_of(Compression::Brotli, None) == Ok::<Codec, LevelError>(Codec::Brotli(5)),
        codec_of(Compression::Snappy, Some(l)) == Ok::<Codec, LevelError>(Codec::Snappy),
        codec_of(Compression::Lz4, Some(l)) == Ok::<Codec, LevelError>(Codec::Lz4),
        codec_of(Compression::Uncompressed, Some(l)) == Ok::<Codec, LevelError>(Codec::Uncompressed),
{
}

/// The codec for the Parquet writer.
pub fn map_compression(c: Compression, level: Option<i32>) -> (r: Result<Codec, LevelError>)
    ensures
        r == codec_of(c, level),
{
    match c {
        Compression::Zstd => {
            let l = match level {
                Some(l) => l,
                None => 3,
            };
            if 1 <= l && l <= 22 {
                Ok(Codec::Zstd(l))
            } else {
                Err(LevelError { codec: c, level: l, min: 1i32, max: 22i32 })
            }
        },
        Compression::Snappy => Ok(Codec::Snappy),
        Compression::Gzip => {
            let l = match level {
                Some(l) => l,
                None => 6,
            };
            if 0 <= l && l <= 9 {
                Ok(Codec::Gzip(l as u32))
            } else {
                Err(LevelError { codec: c, level: l, min: 0i32, max: 9i32 })
            }
        },
        Compression::Brotli => {
            let l = match level {
                Some(l) => l,
                None => 5,
            };
            if 0 <= l && l <= 11 {
                Ok(Codec::Brotli(l as u32))
            } else {
                Err(LevelError { codec: c, level: l, min: 0i32, max: 11i32 })
            }
        },
        Compression::Lz4 => Ok(Codec::Lz4),
        Compression::Uncompressed => Ok(Codec::Uncompressed),
    }
}

pub open spec fn codec_name(c: Compression) -> Seq<char> {
    match c {
        Compression::Zstd => "zstd"@,
        Compression::Snappy => "snappy"@,
        Compression::Gzip => "gzip"@,
        Compression::Brotli => "brotli"@,
        Compression::Lz4 => "lz4"@,
        Compression::Uncompressed => "none"@,
    }
}

/// The codec's name in lower case, as shown in the pipeline summary.
pub fn compression_name(c: Compression) -> (r: String)
    ensures
        r@ == codec_name(c),
{
    match c {
        Compression::Zstd => String::from_str("zstd"),
        Compression::Snappy => String::from_str("snappy"),
        Compression::Gzip => String::from_str("gzip"),
        Compression::Brotli => String::from_str("brotli"),
        Compression::Lz4 => String::from_str("lz4"),
        Compression::Uncompressed => String::from_str("none"),
    }
}

/// `codec` or `codec:level`, as shown when writing starts.
pub fn compression_label(c: Compression, level: Option<i32>) -> (r: String)
    ensures
        r@ == codec_name(c) + match level {
            Some(l) => seq![':'] + signed_decimal(l as int),
            None => Seq::empty(),
        },
{
    let mut s = compression_name(c);
    match level {
        Some(l) => {
            crate::text::push_char(&mut s, ':');
            push_signed(&mut s, l as i64);
        },
        None => {},
    }
    s
}

/// Rows per Parquet row group: the batch size, at least 1.
pub fn row_group_size(batch_size: u32) -> (r: usize)
    ensures
        r == (if batch_size > 1 {
            batch_size as usize
        } else {
            1usize
        }),
{
    if batch_size > 1 {
        batch_size as usize
    } else {
        1
    }
}

} // verus!
