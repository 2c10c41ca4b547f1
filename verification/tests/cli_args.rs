use dbmorph::args::{
    compression_label, compression_name, dest_table, map_compression, parse_args, parse_delimiter,
    row_group_size, source_kind, supports, target_kind, wanted_table, Codec, Compression,
    LevelError, RawArgs, Source, Target,
};

#[test]
fn delimiter_names_and_first_bytes() {
    assert_eq!(parse_delimiter("t"), Ok(b'\t'));
    assert_eq!(parse_delimiter("\\t"), Ok(b'\t'));
    assert_eq!(parse_delimiter("n"), Ok(b'\n'));
    assert_eq!(parse_delimiter("\\r"), Ok(b'\r'));
    assert_eq!(parse_delimiter(","), Ok(b','));
    assert_eq!(parse_delimiter(";"), Ok(b';'));
    assert_eq!(parse_delimiter("|"), Ok(b'|'));
    assert_eq!(parse_delimiter(""), Ok(b','));
    assert_eq!(parse_delimiter("ab"), Ok(b'a'));
    assert_eq!(parse_delimiter("\u{e9}"), Ok(0xC3));
}

#[test]
fn formats_are_recognized() {
    assert_eq!(target_kind("sqlite"), Some(Target::Sqlite));
    assert_eq!(target_kind("parquet"), Some(Target::Parquet));
    assert_eq!(target_kind("csv"), Some(Target::Csv));
    assert_eq!(target_kind("mongo"), None);
    assert_eq!(source_kind("txt"), Some(Source::Csv));
    assert_eq!(source_kind("ndjson"), Some(Source::Json));
    assert_eq!(source_kind("dump"), Some(Source::Sql));
    assert_eq!(source_kind("sqlite"), Some(Source::Sqlite));
    assert_eq!(source_kind("parquet"), Some(Source::Parquet));
    assert_eq!(source_kind("xml"), None);
}

#[test]
fn writers_refuse_their_own_format() {
    assert!(!supports(Target::Parquet, Source::Parquet));
    assert!(!supports(Target::Sqlite, Source::Sqlite));
    assert!(supports(Target::Csv, Source::Csv));
    assert!(supports(Target::Sqlite, Source::Parquet));
}

#[test]
fn table_names() {
    assert_eq!(wanted_table("main"), None);
    assert_eq!(wanted_table("users"), Some("users".to_string()));
    assert_eq!(dest_table("main", "users"), "users");
    assert_eq!(dest_table("out", "users"), "out");
}

#[test]
fn compression_levels() {
    assert_eq!(map_compression(Compression::Zstd, None), Ok(Codec::Zstd(3)));
    assert_eq!(map_compression(Compression::Zstd, Some(1)), Ok(Codec::Zstd(1)));
    assert_eq!(map_compression(Compression::Zstd, Some(22)), Ok(Codec::Zstd(22)));
    assert_eq!(
        map_compression(Compression::Zstd, Some(0)),
        Err(LevelError { codec: Compression::Zstd, level: 0, min: 1, max: 22 })
    );
    assert_eq!(
        map_compression(Compression::Zstd, Some(-5)),
        Err(LevelError { codec: Compression::Zstd, level: -5, min: 1, max: 22 })
    );
    assert_eq!(
        map_compression(Compression::Zstd, Some(23)),
        Err(LevelError { codec: Compression::Zstd, level: 23, min: 1, max: 22 })
    );
    assert_eq!(map_compression(Compression::Gzip, None), Ok(Codec::Gzip(6)));
    assert_eq!(
        map_compression(Compression::Gzip, Some(10)),
        Err(LevelError { codec: Compression::Gzip, level: 10, min: 0, max: 9 })
    );
    assert_eq!(map_compression(Compression::Brotli, None), Ok(Codec::Brotli(5)));
    assert_eq!(
        map_compression(Compression::Brotli, Some(-1)),
        Err(LevelError { codec: Compression::Brotli, level: -1, min: 0, max: 11 })
    );
    assert_eq!(map_compression(Compression::Lz4, Some(99)), Ok(Codec::Lz4));
    assert_eq!(map_compression(Compression::Snappy, None), Ok(Codec::Snappy));
    assert_eq!(map_compression(Compression::Uncompressed, None), Ok(Codec::Uncompressed));
}

#[test]
fn compression_labels() {
    assert_eq!(compression_name(Compression::Uncompressed), "none");
    assert_eq!(compression_name(Compression::Brotli), "brotli");
    assert_eq!(compression_label(Compression::Zstd, Some(-1)), "zstd:-1");
    assert_eq!(compression_label(Compression::Gzip, Some(9)), "gzip:9");
    assert_eq!(compression_label(Compression::Lz4, None), "lz4");
    assert_eq!(row_group_size(0), 1);
    assert_eq!(row_group_size(50_000), 50_000);
}

#[test]
fn command_line_values_become_options() {
    let raw = RawArgs {
        input_path: "in.csv".to_string(),
        output_path: "out".to_string(),
        input_file_type: "csv".to_string(),
        database_type: "sqlite".to_string(),
        table_name: "main".to_string(),
        encoding: None,
        delimiter: "\\t".to_string(),
        compression: Compression::Zstd,
        level: Some(4),
        batch_size: 10,
        drop_existing: true,
        no_header: false,
        max_field: 0,
        strict: false,
        no_quote: false,
        infer_types: true,
    };
    let a = parse_args(raw);
    assert_eq!(a.delimiter, b'\t');
    assert_eq!(a.input_path, "in.csv");
    assert_eq!(a.level, Some(4));
    assert!(a.drop_existing);
    assert!(a.infer_types);
}
