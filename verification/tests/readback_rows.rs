use dbmorph::readback::{
    mid_from_clock, probe_rows, pseudo_random_mid, read_back_table, selection_for, verify_output, ReadBackError, RowRun,
};

fn delivered(runs: &[RowRun]) -> Vec<u64> {
    let mut pos = 0u64;
    let mut out = Vec::new();
    for r in runs {
        match *r {
            RowRun::Skip(n) => pos += n,
            RowRun::Select(n) => {
                for k in 0..n {
                    out.push(pos + k);
                }
                pos += n;
            }
        }
    }
    out
}

#[test]
fn selection_skips_gaps_and_selects_rows() {
    let runs = selection_for(&[0, 1, 5, 9], 10);
    assert_eq!(
        runs,
        vec![
            RowRun::Select(1),
            RowRun::Select(1),
            RowRun::Skip(3),
            RowRun::Select(1),
            RowRun::Skip(3),
            RowRun::Select(1),
        ]
    );
}

#[test]
fn selection_passes_over_repeats_and_out_of_range() {
    assert_eq!(selection_for(&[3, 3, 12, -1], 10), vec![RowRun::Skip(3), RowRun::Select(1)]);
    assert_eq!(selection_for(&[], 10), vec![]);
}

#[test]
fn law_runs_deliver_kept_on_a_sample() {
    let runs = selection_for(&[2, 7, 7, 4, 8, 20], 10);
    assert_eq!(delivered(&runs), vec![2, 7, 8]);
}

#[test]
fn probes_are_sorted_and_distinct() {
    assert_eq!(probe_rows(10, 4), vec![0, 1, 4, 9]);
    assert_eq!(probe_rows(10, 9), vec![0, 1, 9]);
    assert_eq!(probe_rows(1, 0), vec![0]);
    assert_eq!(probe_rows(2, 1), vec![0, 1]);
}

#[test]
fn the_middle_row_comes_from_the_clock() {
    assert_eq!(mid_from_clock(Some(17), 5), 2);
    assert_eq!(mid_from_clock(None, 5), 0);
    for total in [1u64, 2, 7, 1000] {
        assert!(pseudo_random_mid(total) < total);
    }
}

#[test]
fn law_probes_cover_head_mid_tail_on_a_sample() {
    assert_eq!(verify_output(0), None);
    let (mid, rows) = verify_output(50).unwrap();
    assert!(mid < 50);
    assert!(rows.contains(&0));
    assert!(rows.contains(&1));
    assert!(rows.contains(&mid));
    assert!(rows.contains(&49));
    assert!(rows.windows(2).all(|w| w[0] < w[1]));
}

#[test]
fn read_back_decides_the_check() {
    let names: Vec<String> = (0..7).map(|i| format!("n{i}")).collect();
    assert_eq!(read_back_table(&names, vec![]), Err(ReadBackError::NothingRead));
    let rows = vec![vec!["a".to_string()], vec!["b".to_string()]];
    let t = read_back_table(&names, rows.clone()).unwrap();
    assert_eq!(t.len(), 3);
    assert_eq!(t[0], names[..5].to_vec());
    assert_eq!(t[1..].to_vec(), rows);
}
