use dbmorph::batch::{empty_columns, progress_due, push_row_columns, sample_target, Chunker, PreviewGate};

fn r(s: &str) -> Vec<String> {
    vec![s.to_string()]
}

#[test]
fn preview_is_the_first_rows() {
    let mut g = PreviewGate::new(2);
    assert_eq!(g.offer(&r("a")), None);
    assert_eq!(g.offer(&r("b")), Some(vec![r("a"), r("b")]));
    assert_eq!(g.offer(&r("c")), None);
    assert_eq!(g.close(), None);
}

#[test]
fn short_input_is_previewed_at_the_end() {
    let mut g = PreviewGate::new(5);
    assert_eq!(g.offer(&r("a")), None);
    assert_eq!(g.close(), Some(vec![r("a")]));
    let mut empty = PreviewGate::new(5);
    assert_eq!(empty.close(), None);
}

#[test]
fn law_batches_partition_rows_on_a_sample() {
    let mut c = Chunker::new(2);
    let mut out = Vec::new();
    for s in ["a", "b", "c", "d", "e"] {
        if let Some(b) = c.push(r(s)) {
            out.push(b);
        }
    }
    assert_eq!(out, vec![vec![r("a"), r("b")], vec![r("c"), r("d")]]);
    assert_eq!(c.finish(), Some(vec![r("e")]));
    assert_eq!(Chunker::new(3).finish(), None);
}

#[test]
fn progress_and_sampling() {
    assert!(progress_due(100, 50));
    assert!(!progress_due(101, 50));
    assert!(progress_due(0, 0));
    assert!(!progress_due(3, 0));
    assert_eq!(sample_target(true), 1_000);
    assert_eq!(sample_target(false), 5);
}

#[test]
fn rows_spread_over_column_buffers() {
    let mut cols = empty_columns(3);
    push_row_columns(&mut cols, vec!["a".to_string(), "b".to_string()]);
    push_row_columns(&mut cols, vec!["c".to_string(), "d".to_string(), "e".to_string(), "f".to_string()]);
    assert_eq!(cols[0], vec![Some("a".to_string()), Some("c".to_string())]);
    assert_eq!(cols[1], vec![Some("b".to_string()), Some("d".to_string())]);
    assert_eq!(cols[2], vec![None, Some("e".to_string())]);
}
