# DBMorph

DBMorph converts data files between formats: CSV/TXT, JSON (array or
NDJSON), SQL dumps, SQLite databases and Parquet files go into a SQLite
FTS5 table, a Parquet file or a CSV file.

## Layout

- `src/` is the library, verified with Verus:
  - `sql_lex`, `sql_dump`: the SQL dump tokenizer and the single-pass dump
    reader (source table, its columns, then its rows as a stream);
  - `rows`: the row guard that pads, cuts, drops and clips rows and counts
    what it changed;
  - `infer`: column type inference and the column plan for Parquet, and
    the integer and boolean cells of typed columns;
  - `sqlite`: identifiers and statements for the SQLite writer and reader;
  - `batch`: the preview gate, batching and column buffers of the writers;
  - `readback`: which rows of a written Parquet file are read back, and
    the row selection that reads them;
  - `json`, `delimited`, `encoding`: schema and rows of JSON input,
    delimited text decoded and split into column names and rows, and the
    encoding guess;
  - `display`, `args`, `text`, `config`: terminal text, command-line
    values, string helpers and constants.
- `app/` is the program: command line, file and database I/O, the
  terminal, and the Arrow/Parquet, sqlx and serde_json plumbing.
- `tests/` runs the library on concrete inputs.
