use dbmorph::json::{detect_shape, json_row, json_schema, kind_of, value_to_string, JsonCell, JsonError, JsonKind, JsonRecord, JsonShape};

fn obj(pairs: Vec<(&str, JsonCell)>) -> JsonRecord {
    JsonRecord::Object(pairs.into_iter().map(|(k, v)| (k.to_string(), v)).collect())
}

fn strs(v: &[&str]) -> Vec<String> {
    v.iter().map(|s| s.to_string()).collect()
}

#[test]
fn shape_from_first_significant_byte() {
    assert_eq!(detect_shape(b"  \n[{"), Some(JsonShape::Array));
    assert_eq!(detect_shape(b"\t{\"a\":1}"), Some(JsonShape::Stream));
    assert_eq!(detect_shape(b" \r\n"), None);
    assert_eq!(detect_shape(b""), None);
}

#[test]
fn schema_is_the_union_of_keys_in_first_seen_order() {
    let recs = vec![
        obj(vec![("a", JsonCell::Number("1".to_string())), ("b", JsonCell::Text("x".to_string()))]),
        JsonRecord::Other(JsonKind::Number),
        obj(vec![("b", JsonCell::Null), ("c", JsonCell::Bool(true))]),
    ];
    assert_eq!(json_schema(&recs), Ok(strs(&["a", "b", "c"])));
}

#[test]
fn schema_without_keys_is_refused() {
    let recs = vec![obj(vec![]), JsonRecord::Other(JsonKind::String)];
    assert_eq!(json_schema(&recs), Err(JsonError::NoKeys));
    assert_eq!(json_schema(&vec![]), Err(JsonError::NoKeys));
}

#[test]
fn rows_are_aligned_to_the_schema() {
    let cols = strs(&["a", "b", "c", "d"]);
    let rec = obj(vec![
        ("c", JsonCell::Nested("[1,2]".to_string())),
        ("a", JsonCell::Bool(false)),
        ("b", JsonCell::Null),
    ]);
    assert_eq!(json_row(&cols, &rec), Ok(strs(&["false", "", "[1,2]", ""])));
}

#[test]
fn non_objects_are_refused_with_their_kind() {
    let cols = strs(&["a"]);
    assert_eq!(json_row(&cols, &JsonRecord::Other(JsonKind::Array)), Err(JsonError::NotObject(JsonKind::Array)));
    assert_eq!(kind_of(JsonKind::Array), "array");
    assert_eq!(kind_of(JsonKind::Null), "null");
}

#[test]
fn cells_as_text() {
    assert_eq!(value_to_string(&JsonCell::Null), "");
    assert_eq!(value_to_string(&JsonCell::Bool(true)), "true");
    assert_eq!(value_to_string(&JsonCell::Number("2.5".to_string())), "2.5");
    assert_eq!(value_to_string(&JsonCell::Text("hi".to_string())), "hi");
    assert_eq!(value_to_string(&JsonCell::Nested("{\"k\":1}".to_string())), "{\"k\":1}");
}

#[test]
fn law_schema_holds_each_key_once_on_a_sample() {
    let recs = vec![
        obj(vec![("x", JsonCell::Null), ("y", JsonCell::Null)]),
        obj(vec![("y", JsonCell::Null), ("x", JsonCell::Null), ("z", JsonCell::Null)]),
    ];
    let s = json_schema(&recs).unwrap();
    assert_eq!(s, strs(&["x", "y", "z"]));
    let mut d = s.clone();
    d.sort();
    d.dedup();
    assert_eq!(d.len(), s.len());
}

#[test]
fn schema_builder_streams_records() {
    let b = dbmorph::json::SchemaBuilder::new();
    let b = b.add(&obj(vec![("k", JsonCell::Null)]));
    let b = b.add(&JsonRecord::Other(JsonKind::Null));
    let b = b.add(&obj(vec![("j", JsonCell::Null), ("k", JsonCell::Null)]));
    assert_eq!(b.finish(), Ok(strs(&["k", "j"])));
    assert_eq!(dbmorph::json::SchemaBuilder::new().finish(), Err(JsonError::NoKeys));
}
