use dbmorph::infer::{
    as_bool, bool_cells, describe_types, infer_types, int_cells, is_float, is_int, parquet_plan, parse_int, ColType, PlanError,
};

fn rows(r: &[&[&str]]) -> Vec<Vec<String>> {
    r.iter().map(|x| x.iter().map(|s| s.to_string()).collect()).collect()
}

#[test]
fn columns_get_the_narrowest_type() {
    let sample = rows(&[&["1", "1.5", "true", "x"], &["-2", "2", "FALSE", ""]]);
    assert_eq!(infer_types(&sample, 4), vec![ColType::Int, ColType::Float, ColType::Bool, ColType::Text]);
}

#[test]
fn empty_and_missing_cells_count_as_null() {
    let sample = rows(&[&["", "7"], &[""]]);
    assert_eq!(infer_types(&sample, 3), vec![ColType::Text, ColType::Int, ColType::Text]);
}

#[test]
fn bool_wins_over_nothing_else() {
    let sample = rows(&[&["true", "1"], &["x", "0"]]);
    assert_eq!(infer_types(&sample, 2), vec![ColType::Text, ColType::Int]);
}

#[test]
fn integers_follow_i64_parsing() {
    assert!(is_int("+5"));
    assert!(is_int("-9223372036854775808"));
    assert!(is_int("9223372036854775807"));
    assert!(!is_int("9223372036854775808"));
    assert!(!is_int("1.0"));
    assert!(!is_int("-"));
    assert!(!is_int(""));
    assert!(!is_int(" 1"));
}

#[test]
fn floats_follow_f64_parsing() {
    for s in ["1e5", "inf", "-Infinity", "NaN", ".5", "5.", "+1.5E-3", "0"] {
        assert!(is_float(s), "{s}");
        assert!(s.parse::<f64>().is_ok());
    }
    for s in [".", "1e", "e5", "abc", "1.2.3", "", "--1"] {
        assert!(!is_float(s), "{s}");
        assert!(s.parse::<f64>().is_err());
    }
}

#[test]
fn booleans_ignore_ascii_case() {
    assert_eq!(as_bool("TRUE"), Some(true));
    assert_eq!(as_bool("fAlSe"), Some(false));
    assert_eq!(as_bool("yes"), None);
}

#[test]
fn description_counts_each_type() {
    let t = vec![ColType::Int, ColType::Int, ColType::Text, ColType::Bool];
    assert_eq!(describe_types(&t), "2 int, 0 float, 1 bool, 1 text");
}

#[test]
fn integers_parse_to_their_value() {
    assert_eq!(parse_int("42"), Some(42));
    assert_eq!(parse_int("+7"), Some(7));
    assert_eq!(parse_int("-0"), Some(0));
    assert_eq!(parse_int("-9223372036854775808"), Some(i64::MIN));
    assert_eq!(parse_int("9223372036854775807"), Some(i64::MAX));
    assert_eq!(parse_int("9223372036854775808"), None);
    assert_eq!(parse_int("12a"), None);
    for s in ["0", "-17", "+3", "007", "x", "", "-"] {
        assert_eq!(parse_int(s), s.parse::<i64>().ok(), "{s}");
    }
}

#[test]
fn typed_cells_of_a_column() {
    let vals = vec![Some("5".to_string()), Some("".to_string()), None, Some("x".to_string()), Some("-2".to_string())];
    assert_eq!(int_cells(&vals), vec![Some(5), None, None, None, Some(-2)]);
    let bools = vec![Some("True".to_string()), Some("".to_string()), None, Some("no".to_string()), Some("false".to_string())];
    assert_eq!(bool_cells(&bools), vec![Some(true), None, None, None, Some(false)]);
}

#[test]
fn law_infer_ignores_order_and_blank_rows_on_a_sample() {
    let a = rows(&[&["1", "x", "true"], &["2", "", "false"]]);
    let b = rows(&[&["2", "", "false"], &["1", "x", "true"], &["1", "x", "true"]]);
    let padded = rows(&[&["1", "x", "true"], &["", "", ""], &["2", "", "false"], &[]]);
    assert_eq!(infer_types(&a, 3), infer_types(&b, 3));
    assert_eq!(infer_types(&a, 3), infer_types(&padded, 3));
}

#[test]
fn parquet_plan_types() {
    let sample = rows(&[&["1", "a"]]);
    assert_eq!(parquet_plan(0, true, &sample), Err(PlanError::NoColumns));
    assert_eq!(parquet_plan(2, true, &sample), Ok(vec![ColType::Int, ColType::Text]));
    assert_eq!(parquet_plan(2, false, &sample), Ok(vec![ColType::Text, ColType::Text]));
}
