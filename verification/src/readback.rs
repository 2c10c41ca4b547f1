//! Reading a written Parquet file back: which rows are probed, and the run
//! list (skip so many rows, select so many) that makes the reader deliver
//! exactly those rows.

use vstd::prelude::*;
use crate::config::PREVIEW_COLS;

verus! {

/// One step of a row selection: pass over rows, or deliver them.
#[derive(Copy, Clone, Debug, PartialEq, Eq, Structural)]
pub enum RowRun {
    Skip(u64),
    Select(u64),
}

// ----------------------------------------------------------------------
// selection
// ----------------------------------------------------------------------

/// The indices a selection keeps, walking `ix` with the first row not yet
/// passed at `cursor`: an index behind the cursor or past the end is
/// dropped, any other is kept and moves the cursor just past it.
pub open spec fn kept_rows(ix: Seq<i64>, total: int, cursor: int) -> Seq<int>
    decreases ix.len(),
{
    if ix.len() == 0 {
        Seq::empty()
    } else {
        let i = ix[0] as int;
        if i < cursor || i >= total {
            kept_rows(ix.drop_first(), total, cursor)
        } else {
            seq![i] + kept_rows(ix.drop_first(), total, i + 1)
        }
    }
}

/// The runs for `ix`: before each kept index, a skip over the gap (when
/// there is one), then a selection of that one row.
pub open spec fn runs_for(ix: Seq<i64>, total: int, cursor: int) -> Seq<RowRun>
    decreases ix.len(),
{
    if ix.len() == 0 {
        Seq::empty()
    } else {
        let i = ix[0] as int;
        if i < cursor || i >= total {
            runs_for(ix.drop_first(), total, cursor)
        } else {
            let gap: Seq<RowRun> = if i > cursor {
                seq![RowRun::Skip((i - cursor) as u64)]
            } else {
                Seq::empty()
            };
            gap + seq![RowRun::Select(1)] + runs_for(ix.drop_first(), total, i + 1)
        }
    }
}

/// The rows a run list delivers, the reader standing at row `pos`.
pub open spec fn delivered(runs: Seq<RowRun>, pos: int) -> Seq<int>
    decreases runs.len(),
{
    if runs.len() == 0 {
        Seq::empty()
    } else {
        match runs[0] {
            RowRun::Skip(n) => delivered(runs.drop_first(), pos + n),
            RowRun::Select(n) => Seq::new(n as nat, |k: int| pos + k) + delivered(
                runs.drop_first(),
                pos + n,
            ),
        }
    }
}

/// The rows past the cursor that the runs pass over or deliver.
pub open spec fn run_span(runs: Seq<RowRun>) -> int
    decreases runs.len(),
{
    if runs.len() == 0 {
        0
    } else {
        match runs[0] {
            RowRun::Skip(n) => n + run_span(runs.drop_first()),
            RowRun::Select(n) => n + run_span(runs.drop_first()),
        }
    }
}

proof fn lemma_delivered_concat(a: Seq<RowRun>, b: Seq<RowRun>, pos: int)
    ensures
        delivered(a + b, pos) == delivered(a, pos) + delivered(b, pos + run_span(a)),
    decreases a.len(),
{
    if a.len() == 0 {
        assert(a + b =~= b);
    } else {
        assert((a + b).drop_first() =~= a.drop_first() + b);
        match a[0] {
            RowRun::Skip(n) => {
                lemma_delivered_concat(a.drop_first(), b, pos + n);
            },
            RowRun::Select(n) => {
                lemma_delivered_concat(a.drop_first(), b, pos + n);
                assert(delivered(a + b, pos) =~= delivered(a, pos) + delivered(b, pos + run_span(a)));
            },
        }
    }
}

/// A run list delivers exactly the rows it was built to keep, in order:
/// reading with the runs for `ix` from row `cursor` gives `kept_rows`.
pub proof fn law_runs_deliver_kept(ix: Seq<i64>, total: int, cursor: int)
    requires
        0 <= cursor,
    ensures
        delivered(runs_for(ix, total, cursor), cursor) == kept_rows(ix, total, cursor),
    decreases ix.len(),
{
    if ix.len() > 0 {
        let i = ix[0] as int;
        if i < cursor || i >= total {
            law_runs_deliver_kept(ix.drop_first(), total, cursor);
        } else {
            law_runs_deliver_kept(ix.drop_first(), total, i + 1);
            let rest = runs_for(ix.drop_first(), total, i + 1);
            let gap: Seq<RowRun> = if i > cursor {
                seq![RowRun::Skip((i - cursor) as u64)]
            } else {
                Seq::empty()
            };
            let head = gap + seq![RowRun::Select(1)];
            lemma_delivered_concat(head, rest, cursor);
            lemma_delivered_concat(gap, seq![RowRun::Select(1)], cursor);
            assert(run_span(seq![RowRun::Select(1)]) == 1) by {
                reveal_with_fuel(run_span, 2);
            }
            assert(delivered(seq![RowRun::Select(1)], i) =~= seq![i]) by {
                reveal_with_fuel(delivered, 2);
            }
            if i > cursor {
                assert(run_span(gap) == i - cursor) by {
                    reveal_with_fuel(run_span, 2);
                }
                assert(delivered(gap, cursor) =~= Seq::<int>::empty()) by {
                    reveal_with_fuel(delivered, 2);
                }
            } else {
                assert(run_span(gap) == 0);
                assert(delivered(gap, cursor) =~= Seq::<int>::empty());
            }
            assert(run_span(head) == i - cursor + 1) by {
                lemma_span_concat(gap, seq![RowRun::Select(1)]);
            }
            assert(delivered(head, cursor) =~= seq![i]);
        }
    }
}

proof fn lemma_span_concat(a: Seq<RowRun>, b: Seq<RowRun>)
    ensures
        run_span(a + b) == run_span(a) + run_span(b),
    decreases a.len(),
{
    if a.len() == 0 {
        assert(a + b =~= b);
    } else {
        assert((a + b).drop_first() =~= a.drop_first() + b);
        lemma_span_concat(a.drop_first(), b);
    }
}

proof fn lemma_runs_step(ix: Seq<i64>, k: int, total: int, cursor: int)
    requires
        0 <= k < ix.len(),
    ensures
        ix.subrange(k, ix.len() as int).drop_first() == ix.subrange(k + 1, ix.len() as int),
        ix.subrange(k, ix.len() as int)[0] == ix[k],
{
    assert(ix.subrange(k, ix.len() as int).drop_first() =~= ix.subrange(k + 1, ix.len() as int));
}

/// The row selection that reads exactly the wanted rows of a file of
/// `total` rows: indices out of range, or not beyond the previous one, are
/// passed over.
pub fn selection_for(indices: &[i64], total: i64) -> (r: Vec<RowRun>)
    ensures
        r@ == runs_for(indices@, total as int, 0),
{
    let mut out: Vec<RowRun> = Vec::new();
    let mut cursor: i64 = 0;
    let mut k: usize = 0;
    proof {
        assert(indices@.subrange(0, indices@.len() as int) =~= indices@);
        assert(out@ + runs_for(indices@, total as int, 0) =~= runs_for(indices@, total as int, 0));
    }
    while k < indices.len()
        invariant
            k <= indices.len(),
            0 <= cursor,
            out@ + runs_for(indices@.subrange(k as int, indices@.len() as int), total as int, cursor as int)
                == runs_for(indices@, total as int, 0),
        decreases indices.len() - k,
    {
        proof {
            lemma_runs_step(indices@, k as int, total as int, cursor as int);
        }
        let idx = indices[k];
        let ghost before = out@;
        let ghost sub = indices@.subrange(k as int, indices@.len() as int);
        if idx < cursor || idx >= total {
            k += 1;
        } else {
            if idx > cursor {
                out.push(RowRun::Skip((idx - cursor) as u64));
            }
            out.push(RowRun::Select(1));
            proof {
                let gap: Seq<RowRun> = if idx > cursor {
                    seq![RowRun::Skip((idx - cursor) as u64)]
                } else {
                    Seq::empty()
                };
                assert(out@ =~= before + gap + seq![RowRun::Select(1)]);
                assert(runs_for(sub, total as int, cursor as int) == gap + seq![RowRun::Select(1)]
                    + runs_for(sub.drop_first(), total as int, idx + 1));
                assert(out@ + runs_for(sub.drop_first(), total as int, idx + 1) =~= before + runs_for(
                    sub,
                    total as int,
                    cursor as int,
                ));
            }
            cursor = idx + 1;
            k += 1;
        }
    }
    proof {
        assert(indices@.subrange(indices@.len() as int, indices@.len() as int) =~= Seq::<i64>::empty());
        assert(out@ + Seq::<RowRun>::empty() =~= out@);
    }
    out
}

// ----------------------------------------------------------------------
// which rows are probed
// ----------------------------------------------------------------------

/// The rows probed in a file of `total` rows: the first, the second (the
/// first again in a one-row file), one in the middle chosen by the caller,
/// and the last; those inside the file.
pub open spec fn probe_set(total: nat, mid: nat) -> Set<nat> {
    let last = (total - 1) as nat;
    let second: nat = if last < 1 { last } else { 1 };
    set![0nat, second, mid, last].filter(|i: nat| i < total)
}

/// The probes reach the head, the chosen middle row and the tail of the
/// file.
pub proof fn law_probes_cover_head_mid_tail(total: nat, mid: nat)
    requires
        0 < total,
        mid < total,
    ensures
        probe_set(total, mid).contains(0),
        probe_set(total, mid).contains(mid),
        probe_set(total, mid).contains((total - 1) as nat),
{
}

pub open spec fn strictly_increasing(s: Seq<u64>) -> bool {
    forall|a: int, b: int| 0 <= a < b < s.len() ==> s[a] < s[b]
}

/// Inserts `x` into a strictly increasing list, unless it is there already.
fn insert_sorted(v: &mut Vec<u64>, x: u64)
    requires
        strictly_increasing(old(v)@),
    ensures
        strictly_increasing(final(v)@),
        forall|y: u64| final(v)@.contains(y) <==> (old(v)@.contains(y) || y == x),
{
    let mut i: usize = 0;
    while i < v.len() && v[i] < x
        invariant
            i <= v.len(),
            v@ == old(v)@,
            forall|j: int| 0 <= j < i ==> v@[j] < x,
        decreases v.len() - i,
    {
        i += 1;
    }
    if i < v.len() && v[i] == x {
        return;
    }
    let ghost before = v@;
    assert(before == old(v)@);
    v.insert(i, x);
    assert forall|y: u64| v@.contains(y) <==> (before.contains(y) || y == x) by {
        if v@.contains(y) {
            let j = choose|j: int| 0 <= j < v@.len() && v@[j] == y;
            if j < i {
                assert(before[j] == y);
            } else if j > i {
                assert(before[j - 1] == y);
            }
        }
        if before.contains(y) {
            let j = choose|j: int| 0 <= j < before.len() && before[j] == y;
            if j < i {
                assert(v@[j] == y);
            } else {
                assert(v@[j + 1] == y);
            }
        }
        if y == x {
            assert(v@[i as int] == x);
        }
    }
    assert(forall|y: u64| v@.contains(y) <==> (old(v)@.contains(y) || y == x));
}

/// The rows to read back, in increasing order and each once: `probe_set`
/// of the file, `mid` being the row picked at random (below `total`).
pub fn probe_rows(total: u64, mid: u64) -> (r: Vec<u64>)
    requires
        total > 0,
        mid < total,
    ensures
        strictly_increasing(r@),
        forall|i: u64| r@.contains(i) <==> probe_set(total as nat, mid as nat).contains(i as nat),
{
    let last = total - 1;
    let second = if last < 1 { last } else { 1 };
    let mut v: Vec<u64> = Vec::new();
    insert_sorted(&mut v, 0);
    insert_sorted(&mut v, second);
    insert_sorted(&mut v, mid);
    insert_sorted(&mut v, last);
    assert forall|i: u64| v@.contains(i) <==> probe_set(total as nat, mid as nat).contains(i as nat) by {
        let s = set![0nat, second as nat, mid as nat, last as nat];
        assert(probe_set(total as nat, mid as nat).contains(i as nat) <==> (s.contains(i as nat) && i < total));
    }
    v
}

// ----------------------------------------------------------------------
// the row in the middle
// ----------------------------------------------------------------------

/// `std::time::SystemTime`, carried through opaquely.
#[verifier::external_type_specification]
#[verifier::external_body]
pub struct ExSystemTime(std::time::SystemTime);

/// `SystemTime::now`: the current time. Nothing is stated of it.
#[verifier::external_body]
fn time_now() -> (t: std::time::SystemTime) {
    std::time::SystemTime::now()
}

/// `SystemTime::duration_since(UNIX_EPOCH)`: the time elapsed since the
/// Unix epoch, `None` when `t` lies before it. Nothing is stated of the
/// value.
#[verifier::external_body]
fn since_epoch(t: &std::time::SystemTime) -> (d: Option<std::time::Duration>) {
    t.duration_since(std::time::UNIX_EPOCH).ok()
}

/// `Duration::as_nanos`: the whole nanoseconds of a duration. Nothing is
/// stated of the value (a duration is opaque here).
#[verifier::external_body]
fn duration_nanos(d: &std::time::Duration) -> (n: u128) {
    d.as_nanos()
}

/// Nanoseconds since the Unix epoch by the system clock, cut to 64 bits;
/// `None` when the clock stands before the epoch.
fn clock_nanos() -> (t: Option<u64>) {
    let now = time_now();
    match since_epoch(&now) {
        Some(d) => {
            let n = duration_nanos(&d);
            Some(#[verifier::truncate] (n as u64))
        },
        None => None,
    }
}

/// The middle row from a clock reading: the reading modulo the row count,
/// row 0 when there is no reading.
pub fn mid_from_clock(nanos: Option<u64>, total_rows: u64) -> (r: u64)
    requires
        total_rows > 0,
    ensures
        r == (match nanos {
            Some(n) => n % total_rows,
            None => 0,
        }),
        r < total_rows,
{
    match nanos {
        Some(n) => n % total_rows,
        None => 0,
    }
}

/// A row picked by the clock, below `total_rows`.
pub fn pseudo_random_mid(total_rows: u64) -> (r: u64)
    requires
        total_rows > 0,
    ensures
        r < total_rows,
{
    let t = clock_nanos();
    mid_from_clock(t, total_rows)
}

/// The rows the output check reads back from a file of `total_rows` rows:
/// none when the file is empty (the check then only warns), else the
/// middle row picked by the clock and the probe rows around it.
pub fn verify_output(total_rows: u64) -> (r: Option<(u64, Vec<u64>)>)
    ensures
        total_rows == 0 ==> r is None,
        total_rows > 0 ==> (r matches Some((mid, v)) && mid < total_rows && strictly_increasing(v@)
            && forall|i: u64| v@.contains(i) <==> probe_set(total_rows as nat, mid as nat).contains(i as nat)),
{
    if total_rows == 0 {
        return None;
    }
    let mid = pseudo_random_mid(total_rows);
    let v = probe_rows(total_rows, mid);
    Some((mid, v))
}

/// Why the output check fails.
#[derive(Copy, Clone, Debug, PartialEq, Eq, Structural)]
pub enum ReadBackError {
    /// None of the probed rows could be read back.
    NothingRead,
}

/// The outcome of the output check from the rows read back: a failure when
/// none came back, else the table shown, the column names (at most
/// `PREVIEW_COLS` of them) above the rows read.
pub fn read_back_table(names: &Vec<String>, rows: Vec<Vec<String>>) -> (r: Result<Vec<Vec<String>>, ReadBackError>)
    ensures
        rows.len() == 0 ==> r == Err::<Vec<Vec<String>>, ReadBackError>(ReadBackError::NothingRead),
        rows.len() > 0 ==> (r matches Ok(t) && t.len() == rows.len() + 1 && t@[0].deep_view()
            == names.deep_view().take(
            if names.len() < PREVIEW_COLS { names.len() as int } else { PREVIEW_COLS as int },
        ) && forall|i: int| 0 <= i < rows.len() ==> #[trigger] t@[i + 1].deep_view() == rows@[i].deep_view()),
{
    if rows.len() == 0 {
        return Err(ReadBackError::NothingRead);
    }
    let n = if names.len() < PREVIEW_COLS { names.len() } else { PREVIEW_COLS };
    let mut header: Vec<String> = Vec::new();
    let mut j: usize = 0;
    while j < n
        invariant
            j <= n,
            n <= names.len(),
            header.deep_view() == names.deep_view().take(j as int),
        decreases n - j,
    {
        let ghost before = header.deep_view();
        header.push(names[j].clone());
        j += 1;
        assert(header.deep_view() =~= before.push(names@[j - 1]@));
        assert(names.deep_view().take(j as int) =~= names.deep_view().take(j - 1).push(names@[j - 1]@));
    }
    let mut table: Vec<Vec<String>> = Vec::new();
    table.push(header);
    let ghost rv = rows@;
    let mut rows = rows;
    let mut k: usize = 0;
    let mut rev: Vec<Vec<String>> = Vec::new();
    let total = rows.len();
    while rows.len() > 0
        invariant
            rows.len() + rev.len() == total,
            total == rv.len(),
            rows@ == rv.take(rows.len() as int),
            forall|q: int| 0 <= q < rev.len() ==> #[trigger] rev@[q] == rv[total - 1 - q],
        decreases rows.len(),
    {
        let x = rows.pop().unwrap();
        assert(rows@ =~= rv.take(rows.len() as int));
        rev.push(x);
    }
    while rev.len() > 0
        invariant
            k + rev.len() == total,
            total == rv.len(),
            table.len() == k + 1,
            table@[0].deep_view() == names.deep_view().take(n as int),
            forall|q: int| 0 <= q < rev.len() ==> #[trigger] rev@[q] == rv[total - 1 - q],
            forall|i: int| 0 <= i < k ==> #[trigger] table@[i + 1].deep_view() == rv[i].deep_view(),
        decreases rev.len(),
    {
        let x = rev.pop().unwrap();
        assert(x == rv[k as int]);
        table.push(x);
        k += 1;
    }
    Ok(table)
}

} // verus!
