use dbmorph::display::{clip, fmt_int, preview_cells, read_reply, Reply};

#[test]
fn clipping_keeps_short_cells() {
    assert_eq!(clip("hi", 3), "hi");
    assert_eq!(clip("abc", 3), "abc");
    assert_eq!(clip("hello", 3), "he\u{2026}");
    assert_eq!(clip("abc", 0), "\u{2026}");
    assert_eq!(clip("\u{e9}t\u{e9}s", 3), "\u{e9}t\u{2026}");
}

#[test]
fn counts_are_grouped_in_threes() {
    assert_eq!(fmt_int(0), "0");
    assert_eq!(fmt_int(999), "999");
    assert_eq!(fmt_int(1000), "1 000");
    assert_eq!(fmt_int(1_234_567), "1 234 567");
    assert_eq!(fmt_int(1_000_001), "1 000 001");
    assert_eq!(fmt_int(u64::MAX), "18 446 744 073 709 551 615");
}

#[test]
fn law_grouped_digits_on_samples() {
    for n in [0u64, 7, 999, 1000, 54_321, 10_000_000, u64::MAX] {
        assert_eq!(fmt_int(n).replace(' ', ""), n.to_string());
    }
}

#[test]
fn preview_takes_rows_columns_and_clips() {
    let long = "x".repeat(40);
    let recs = vec![
        vec!["a".to_string(), long.clone(), "c".to_string()],
        vec!["d".to_string()],
        vec!["e".to_string()],
    ];
    let p = preview_cells(&recs, 2, 2);
    let clipped = format!("{}\u{2026}", "x".repeat(31));
    assert_eq!(p, vec![vec!["a".to_string(), clipped], vec!["d".to_string()]]);
}

#[test]
fn replies_to_the_prompt() {
    assert_eq!(read_reply("y\n"), Reply::Continue);
    assert_eq!(read_reply("  Y  "), Reply::Continue);
    assert_eq!(read_reply("\n"), Reply::Continue);
    assert_eq!(read_reply("N\r\n"), Reply::Stop);
    assert_eq!(read_reply("yes"), Reply::Again);
    assert_eq!(read_reply("q"), Reply::Again);
}
