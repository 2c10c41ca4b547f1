use dbmorph::sql_dump::{sql_open, SqlRowIter};
use dbmorph::sql_lex::SqlError;

fn open(dump: &str, wanted: Option<&str>) -> Result<(String, Vec<String>, SqlRowIter), SqlError> {
    sql_open(dump.as_bytes().to_vec(), wanted)
}

fn drain(mut it: SqlRowIter) -> Vec<Result<Vec<String>, SqlError>> {
    let mut out = Vec::new();
    while let Some(r) = it.next() {
        out.push(r);
    }
    out
}

fn row(fields: &[&str]) -> Vec<String> {
    fields.iter().map(|s| s.to_string()).collect()
}

#[test]
fn create_then_insert_uses_create_columns() {
    let dump = "CREATE TABLE `users` (\n  `id` int NOT NULL,\n  `name` varchar(20) DEFAULT NULL,\n  PRIMARY KEY (`id`)\n);\nINSERT INTO `users` VALUES (1,'Ann'),(2,'Bob\\'s');\n";
    let (table, cols, it) = open(dump, None).unwrap();
    assert_eq!(table, "users");
    assert_eq!(cols, row(&["id", "name"]));
    let rows = drain(it);
    assert_eq!(rows, vec![Ok(row(&["1", "Ann"])), Ok(row(&["2", "Bob's"]))]);
}

#[test]
fn wanted_table_is_matched_ignoring_case() {
    let dump = "INSERT INTO a VALUES (1);\nINSERT INTO B VALUES (2),(3);\nINSERT INTO a VALUES (4);\nINSERT INTO b VALUES (5);\n";
    let (table, cols, it) = open(dump, Some("b")).unwrap();
    assert_eq!(table, "B");
    assert_eq!(cols, row(&["c0"]));
    let rows = drain(it);
    assert_eq!(rows, vec![Ok(row(&["2"])), Ok(row(&["3"])), Ok(row(&["5"]))]);
}

#[test]
fn columns_inferred_from_first_tuple_when_nothing_declares_them() {
    let dump = "INSERT INTO t VALUES (1,'x',NULL),(2,'y','z');";
    let (table, cols, it) = open(dump, None).unwrap();
    assert_eq!(table, "t");
    assert_eq!(cols, row(&["c0", "c1", "c2"]));
    let rows = drain(it);
    assert_eq!(rows, vec![Ok(row(&["1", "x", ""])), Ok(row(&["2", "y", "z"]))]);
}

#[test]
fn insert_column_list_names_the_columns() {
    let dump = "INSERT INTO t (`a`, b) VALUES (1,2);";
    let (_, cols, it) = open(dump, None).unwrap();
    assert_eq!(cols, row(&["a", "b"]));
    assert_eq!(drain(it), vec![Ok(row(&["1", "2"]))]);
}

#[test]
fn create_without_insert_falls_back_to_that_table() {
    let dump = "CREATE TABLE Foo (a int, b text);";
    let (table, cols, it) = open(dump, None).unwrap();
    assert_eq!(table, "foo");
    assert_eq!(cols, row(&["a", "b"]));
    assert!(drain(it).is_empty());
}

#[test]
fn wanted_table_known_only_from_create() {
    let dump = "CREATE TABLE x (p int);\nCREATE TABLE y (q int, r int);\nINSERT INTO x VALUES (1);";
    let (table, cols, it) = open(dump, Some("Y")).unwrap();
    assert_eq!(table, "Y");
    assert_eq!(cols, row(&["q", "r"]));
    assert!(drain(it).is_empty());
}

#[test]
fn empty_dump_is_refused() {
    assert_eq!(open("-- nothing here\n", None).err(), Some(SqlError::NothingFound));
}

#[test]
fn unterminated_string_is_an_error() {
    assert_eq!(open("INSERT INTO t VALUES ('abc", None).err(), Some(SqlError::UnterminatedString));
}

#[test]
fn missing_tuple_to_infer_is_an_error() {
    assert_eq!(open("INSERT INTO t VALUES ;", None).err(), Some(SqlError::NoTupleToInfer));
}

#[test]
fn eof_inside_tuple_is_reported_by_the_stream() {
    let dump = "CREATE TABLE t (a int, b int);\nINSERT INTO t VALUES (1,2),(3,";
    let (_, _, it) = open(dump, None).unwrap();
    let rows = drain(it);
    assert_eq!(rows, vec![Ok(row(&["1", "2"])), Err(SqlError::EofInTuple)]);
}

#[test]
fn function_values_keep_their_tokens() {
    let dump = "INSERT INTO t VALUES (NOW(),'a');";
    let (_, _, it) = open(dump, None).unwrap();
    assert_eq!(drain(it), vec![Ok(row(&["NOW ( )", "a"]))]);
}

#[test]
fn comments_are_skipped() {
    let dump = "-- header\n# mysql comment\n/* block ; comment */ INSERT INTO t VALUES (1);";
    let (table, _, it) = open(dump, None).unwrap();
    assert_eq!(table, "t");
    assert_eq!(drain(it), vec![Ok(row(&["1"]))]);
}

#[test]
fn schema_qualified_names_keep_the_table() {
    let dump = "INSERT INTO `db`.`t` VALUES (1);";
    let (table, _, _) = open(dump, None).unwrap();
    assert_eq!(table, "t");
}

#[test]
fn quotes_and_escapes_are_decoded() {
    let dump = "INSERT INTO t VALUES ('it''s','a\\nb',\"q\"\"q\");";
    let (_, _, it) = open(dump, None).unwrap();
    assert_eq!(drain(it), vec![Ok(row(&["it's", "a\nb", "q\"q"]))]);
}

#[test]
fn other_tables_between_target_inserts_are_skipped() {
    let dump = "CREATE TABLE t (a int);\nINSERT INTO t VALUES (1);\nINSERT INTO u VALUES ('x');\nINSERT INTO t VALUES (2);";
    let (_, _, it) = open(dump, Some("t")).unwrap();
    assert_eq!(drain(it), vec![Ok(row(&["1"])), Ok(row(&["2"]))]);
}

#[test]
fn law_literal_round_trip_on_a_sample() {
    let dump = "INSERT INTO t VALUES ('a\\\\b''c', \"x\"\"y\\\\\");";
    let (_, _, it) = open(dump, None).unwrap();
    assert_eq!(drain(it), vec![Ok(row(&["a\\b'c", "x\"y\\"]))]);
}

#[test]
fn law_backtick_round_trip_on_a_sample() {
    let dump = "INSERT INTO `we``ird` VALUES (1);";
    let (table, _, _) = open(dump, None).unwrap();
    assert_eq!(table, "we`ird");
}

#[test]
fn invalid_utf8_in_literals_is_replaced() {
    let mut dump = b"INSERT INTO t VALUES ('a".to_vec();
    dump.push(0xFF);
    dump.extend_from_slice(b"b');");
    let (_, _, it) = sql_open(dump, None).unwrap();
    assert_eq!(drain(it), vec![Ok(row(&["a\u{FFFD}b"]))]);
}

#[test]
fn create_table_body_skips_constraints_and_type_arguments() {
    let dump = "/*!40101 SET NAMES utf8 */;\nCREATE TABLE IF NOT EXISTS `p` (\n  `id` int(11) NOT NULL,\n  `price` decimal(10,2) DEFAULT NULL,\n  PRIMARY KEY (`id`),\n  UNIQUE KEY `u` (`price`),\n  KEY `k` (`id`,`price`),\n  CONSTRAINT `fk` FOREIGN KEY (`id`) REFERENCES `q` (`id`)\n) ENGINE=InnoDB;\nINSERT INTO `p` VALUES (1,-2.50);";
    let (table, cols, it) = open(dump, None).unwrap();
    assert_eq!(table, "p");
    assert_eq!(cols, row(&["id", "price"]));
    assert_eq!(drain(it), vec![Ok(row(&["1", "-2.50"]))]);
}

#[test]
fn nested_and_prefixed_values() {
    let dump = "INSERT INTO t VALUES (POINT(1,2), _binary 'abc', NULL, '');";
    let (_, _, it) = open(dump, None).unwrap();
    assert_eq!(drain(it), vec![Ok(row(&["POINT ( 1 , 2 )", "abc", "", ""]))]);
}

#[test]
fn dotted_quoted_and_bracketed_table_names() {
    assert_eq!(open("INSERT INTO db.t VALUES (1);", None).unwrap().0, "t");
    assert_eq!(open("INSERT INTO \"t2\" VALUES (1);", None).unwrap().0, "t2");
    assert_eq!(open("INSERT INTO [dbo].[t3] VALUES (1);", None).unwrap().0, "t3");
}

#[test]
fn a_lone_slash_is_skipped_between_words() {
    let (_, _, it) = open("INSERT INTO t VALUES (1/2, 5-3);", None).unwrap();
    assert_eq!(drain(it), vec![Ok(row(&["1 2", "5-3"]))]);
}

#[test]
fn law_row_stream_stays_ended_on_a_sample() {
    let (_, _, mut it) = open("INSERT INTO t VALUES (1);", None).unwrap();
    assert_eq!(it.next(), Some(Ok(row(&["1"]))));
    assert_eq!(it.next(), None);
    assert_eq!(it.next(), None);
    let mut empty = SqlRowIter::empty("t".to_string());
    assert_eq!(empty.next(), None);
    assert_eq!(empty.next(), None);
}
