use dbmorph::delimited::{csv_headers, read_csv, CsvError};
use dbmorph::encoding::detect_encoding;

#[test]
fn byte_order_marks_decide() {
    assert_eq!(detect_encoding(b"\xEF\xBB\xBFid,name"), "utf-8");
    assert_eq!(detect_encoding(b"\xFF\xFEi\x00d\x00"), "utf-16le");
    assert_eq!(detect_encoding(b"\xFE\xFF\x00i\x00d"), "utf-16be");
}

#[test]
fn plain_text_is_guessed_in_lower_case() {
    assert_eq!(detect_encoding(b"id,name\n1,Ann\n"), "utf-8");
    assert_eq!(detect_encoding("id,name\n1,Zo\u{eb}\n".as_bytes()), "utf-8");
    let guess = detect_encoding(b"caf\xe9 cr\xe8me br\xfbl\xe9e, d\xe9j\xe0 vu, na\xefve");
    assert_eq!(guess, guess.to_lowercase());
    assert_ne!(guess, "utf-8");
}

#[test]
fn header_row_or_synthetic_names() {
    let first = vec!["id".to_string(), "name".to_string()];
    assert_eq!(csv_headers(Some(first.clone()), true), Ok(first.clone()));
    assert_eq!(csv_headers(Some(first), false), Ok(vec!["c0".to_string(), "c1".to_string()]));
    assert_eq!(csv_headers(None, true), Err(CsvError::NoRows));
}

fn strs(v: &[&str]) -> Vec<String> {
    v.iter().map(|s| s.to_string()).collect()
}

#[test]
fn delimited_input_from_bytes() {
    let data = b"id,name\n1,Ann\n2,\"B, b\"\n";
    assert_eq!(
        read_csv(data, "utf-8", b',', true, true),
        Ok((strs(&["id", "name"]), vec![strs(&["1", "Ann"]), strs(&["2", "B, b"])]))
    );
    assert_eq!(
        read_csv(data, "utf-8", b',', true, false),
        Ok((strs(&["c0", "c1"]), vec![strs(&["id", "name"]), strs(&["1", "Ann"]), strs(&["2", "B, b"])]))
    );
    assert_eq!(
        read_csv(b"a,\"b,c\"\n", "utf-8", b',', false, false),
        Ok((strs(&["c0", "c1", "c2"]), vec![strs(&["a", "\"b", "c\""])]))
    );
    assert_eq!(read_csv(b"a;b\n1\n", "utf-8", b';', true, true), Ok((strs(&["a", "b"]), vec![strs(&["1"])])));
}

#[test]
fn delimited_input_is_decoded() {
    assert_eq!(read_csv(b"caf\xe9\n", "windows-1252", b',', true, true), Ok((strs(&["caf\u{e9}"]), vec![])));
    assert_eq!(
        read_csv(b"\xEF\xBB\xBFx\n", "windows-1252", b',', true, true),
        Ok((strs(&["\u{ef}\u{bb}\u{bf}x"]), vec![]))
    );
    assert_eq!(read_csv(b"h\n\xC3\xA9\n", "utf-8", b',', true, true), Ok((strs(&["h"]), vec![strs(&["\u{e9}"])])));
}

#[test]
fn delimited_input_errors() {
    assert_eq!(read_csv(b"a\n", "no-such-encoding", b',', true, true), Err(CsvError::UnknownEncoding));
    assert_eq!(read_csv(b"", "utf-8", b',', true, true), Err(CsvError::NoRows));
    assert_eq!(read_csv("a\u{e9}b\n".as_bytes(), "utf-8", 0xC3, true, true), Err(CsvError::Unreadable));
}
