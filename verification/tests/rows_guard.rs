use dbmorph::rows::{guarded, truncate_field_string_owned, truncate_in_place, RowError, RowFailure, RowGuard, SkipNotice, SkipReason};

fn row(fields: &[&str]) -> Vec<String> {
    fields.iter().map(|s| s.to_string()).collect()
}

#[test]
fn well_formed_row_passes_unchanged() {
    let mut g = RowGuard::new(2, 0, false);
    let (r, n) = g.check(0, row(&["a", "b"]));
    assert_eq!(r, Ok(Some(row(&["a", "b"]))));
    assert_eq!(n, SkipNotice::Quiet);
    assert_eq!(g.skipped(), 0);
}

#[test]
fn short_row_is_padded_and_counted() {
    let mut g = RowGuard::new(3, 0, false);
    let (r, n) = g.check(4, row(&["a", "b"]));
    assert_eq!(r, Ok(Some(row(&["a", "b", ""]))));
    assert_eq!(n, SkipNotice::Warn { index: 4, got: 2, reason: SkipReason::TooFew });
    assert_eq!(g.finish(), 1);
}

#[test]
fn long_row_is_cut() {
    let mut g = RowGuard::new(2, 0, false);
    let (r, n) = g.check(0, row(&["a", "b", "c"]));
    assert_eq!(r, Ok(Some(row(&["a", "b"]))));
    assert_eq!(n, SkipNotice::Warn { index: 0, got: 3, reason: SkipReason::TooMany });
}

#[test]
fn runaway_wide_row_is_dropped() {
    let mut g = RowGuard::new(1, 0, false);
    let wide: Vec<String> = (0..65).map(|i| i.to_string()).collect();
    let (r, _) = g.check(0, wide);
    assert_eq!(r, Ok(None));
    let at_limit: Vec<String> = (0..64).map(|i| i.to_string()).collect();
    let (r, _) = g.check(1, at_limit);
    assert_eq!(r, Ok(Some(row(&["0"]))));
    assert_eq!(g.skipped(), 2);
}

#[test]
fn strict_guard_refuses_malformed_rows() {
    let mut g = RowGuard::new(2, 0, true);
    let (r, n) = g.check(7, row(&["a"]));
    assert_eq!(r, Err(RowError { index: 7, reason: SkipReason::TooFew, got: 1, expected: 2 }));
    assert_eq!(n, SkipNotice::Quiet);
    assert_eq!(g.skipped(), 0);
}

#[test]
fn fields_are_clipped_to_max_field() {
    let mut g = RowGuard::new(2, 3, false);
    let (r, _) = g.check(0, row(&["abcdef", "\u{e9}\u{e9}\u{e9}\u{e9}"]));
    assert_eq!(r, Ok(Some(row(&["abc", "\u{e9}\u{e9}\u{e9}"]))));
}

#[test]
fn warnings_are_suppressed_after_the_limit() {
    let mut g = RowGuard::new(2, 0, false);
    let mut notices = Vec::new();
    for i in 0..23u64 {
        let (_, n) = g.check(i, row(&["x"]));
        notices.push(n);
    }
    assert!(matches!(notices[19], SkipNotice::Warn { index: 19, .. }));
    assert_eq!(notices[20], SkipNotice::Suppressed);
    assert_eq!(notices[21], SkipNotice::Quiet);
    assert_eq!(g.finish(), 23);
}

#[test]
fn guarded_stream_numbers_rows_and_drops() {
    let mut g = RowGuard::new(2, 0, false);
    let input: Vec<Result<Vec<String>, String>> = vec![
        Ok(row(&["a", "b"])),
        Err("read failed".to_string()),
        Ok((0..100).map(|i| i.to_string()).collect()),
        Ok(row(&["c"])),
    ];
    let (out, notices) = guarded(input, &mut g);
    assert_eq!(out.len(), 3);
    assert!(matches!(&out[0], Ok(r) if *r == row(&["a", "b"])));
    assert!(matches!(&out[1], Err(RowFailure::Read(e)) if e == "read failed"));
    assert!(matches!(&out[2], Ok(r) if *r == row(&["c", ""])));
    assert_eq!(notices.len(), 4);
    assert_eq!(notices[2], SkipNotice::Warn { index: 2, got: 100, reason: SkipReason::TooMany });
    assert_eq!(g.finish(), 2);
}

#[test]
fn guarded_strict_reports_malformed_rows() {
    let mut g = RowGuard::new(1, 0, true);
    let input: Vec<Result<Vec<String>, ()>> = vec![Ok(row(&["a", "b"]))];
    let (out, _) = guarded(input, &mut g);
    assert!(matches!(&out[0], Err(RowFailure::Malformed(e)) if e.index == 0 && e.got == 2));
}

#[test]
fn law_guarded_rows_fit_on_a_sample() {
    let mut g = RowGuard::new(3, 2, false);
    let input: Vec<Result<Vec<String>, ()>> = vec![
        Ok(row(&["aaaa"])),
        Ok(row(&["a", "bb", "ccc", "d"])),
        Ok(row(&["x", "y", "z"])),
    ];
    let (out, _) = guarded(input, &mut g);
    for r in out {
        let r = r.unwrap();
        assert_eq!(r.len(), 3);
        assert!(r.iter().all(|f| f.chars().count() <= 2));
    }
}

#[test]
fn law_guard_keeps_wellformed_on_a_sample() {
    let mut g = RowGuard::new(2, 0, true);
    let rows = vec![row(&["a", "b"]), row(&["", "c"])];
    let input: Vec<Result<Vec<String>, ()>> = rows.iter().cloned().map(Ok).collect();
    let (out, _) = guarded(input, &mut g);
    let got: Vec<Vec<String>> = out.into_iter().map(|r| r.unwrap()).collect();
    assert_eq!(got, rows);
}

#[test]
fn truncation_counts_characters() {
    let mut s = "h\u{e9}llo".to_string();
    truncate_in_place(&mut s, 2);
    assert_eq!(s, "h\u{e9}");
    let long = "a".repeat(300);
    assert_eq!(truncate_field_string_owned(&long).len(), 255);
    assert_eq!(truncate_field_string_owned("short"), "short");
}
