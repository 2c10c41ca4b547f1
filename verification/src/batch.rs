//! The bookkeeping of the write loops: which rows are previewed before the
//! user confirms, how rows are grouped into batches, and how a row is
//! spread over the column buffers of a Parquet row group.

use vstd::prelude::*;
use crate::config::{PARQUET_INFER_SAMPLE, PREVIEW_ROWS};

verus! {

pub type RowV = Seq<Seq<char>>;

// ----------------------------------------------------------------------
// preview
// ----------------------------------------------------------------------

/// Abstract state of a preview gate.
pub struct GateV {
    pub limit: nat,
    pub buf: Seq<RowV>,
    pub shown: bool,
}

/// Offering one row: while no preview was shown the row is buffered, and
/// once `limit` rows are buffered they are handed out as the preview.
pub open spec fn gate_offer(g: GateV, row: RowV) -> (GateV, Option<Seq<RowV>>) {
    if g.shown {
        (g, None)
    } else {
        let buf = g.buf.push(row);
        if buf.len() >= g.limit {
            (GateV { limit: g.limit, buf: Seq::empty(), shown: true }, Some(buf))
        } else {
            (GateV { limit: g.limit, buf, shown: false }, None)
        }
    }
}

/// At the end of the input: the rows buffered, if no preview was shown yet.
pub open spec fn gate_close(g: GateV) -> Option<Seq<RowV>> {
    if !g.shown && g.buf.len() > 0 {
        Some(g.buf)
    } else {
        None
    }
}

/// Offers every row in turn; gives the final state and the previews
/// handed out on the way.
pub open spec fn gate_feed(g: GateV, rows: Seq<RowV>) -> (GateV, Seq<Seq<RowV>>)
    decreases rows.len(),
{
    if rows.len() == 0 {
        (g, Seq::empty())
    } else {
        let (g1, outs) = gate_feed(g, rows.drop_last());
        let (g2, o) = gate_offer(g1, rows.last());
        (
            g2,
            match o {
                Some(p) => outs.push(p),
                None => outs,
            },
        )
    }
}

pub open spec fn fresh_gate(limit: nat) -> GateV {
    GateV { limit, buf: Seq::empty(), shown: false }
}

proof fn lemma_gate_feed(limit: nat, rows: Seq<RowV>)
    requires
        limit > 0,
    ensures
        ({
            let (g, outs) = gate_feed(fresh_gate(limit), rows);
            &&& g.limit == limit
            &&& rows.len() < limit ==> !g.shown && g.buf == rows && outs.len() == 0
            &&& rows.len() >= limit ==> g.shown && g.buf.len() == 0 && outs == seq![rows.take(limit as int)]
        }),
    decreases rows.len(),
{
    if rows.len() > 0 {
        lemma_gate_feed(limit, rows.drop_last());
        let (g1, outs1) = gate_feed(fresh_gate(limit), rows.drop_last());
        if rows.len() - 1 < limit {
            assert(g1.buf.push(rows.last()) =~= rows);
            if rows.len() == limit {
                assert(rows.take(limit as int) =~= rows);
            }
        } else {
            assert(rows.drop_last().take(limit as int) =~= rows.take(limit as int));
        }
    }
}

/// Over a whole input, exactly one preview is handed out when there is at
/// least one row (none otherwise), and it is the first `limit` rows (all
/// rows when there are fewer).
pub proof fn law_preview_is_prefix(limit: nat, rows: Seq<RowV>)
    requires
        limit > 0,
    ensures
        ({
            let (g, outs) = gate_feed(fresh_gate(limit), rows);
            let all = match gate_close(g) {
                Some(p) => outs.push(p),
                None => outs,
            };
            &&& rows.len() == 0 ==> all.len() == 0
            &&& rows.len() > 0 ==> all == seq![rows.take(if rows.len() < limit { rows.len() as int } else { limit as int })]
        }),
{
    lemma_gate_feed(limit, rows);
    if rows.len() > 0 && rows.len() < limit {
        assert(rows.take(rows.len() as int) =~= rows);
        let (g, outs) = gate_feed(fresh_gate(limit), rows);
        assert(outs.push(rows) =~= seq![rows]);
    }
}

/// Collects the first rows of a stream for the preview.
pub struct PreviewGate {
    limit: usize,
    buf: Vec<Vec<String>>,
    shown: bool,
}

pub open spec fn opt_rows_view(o: Option<Vec<Vec<String>>>) -> Option<Seq<RowV>> {
    match o {
        Some(v) => Some(v.deep_view()),
        None => None,
    }
}

fn clone_row(row: &Vec<String>) -> (r: Vec<String>)
    ensures
        r.deep_view() == row.deep_view(),
{
    let mut r: Vec<String> = Vec::new();
    let mut i: usize = 0;
    while i < row.len()
        invariant
            i <= row.len(),
            r.deep_view() == row.deep_view().take(i as int),
        decreases row.len() - i,
    {
        let ghost before = r.deep_view();
        r.push(row[i].clone());
        i += 1;
        assert(r.deep_view() =~= before.push(row[i - 1]@));
        assert(row.deep_view().take(i as int) =~= row.deep_view().take(i - 1).push(row[i - 1]@));
    }
    assert(row.deep_view().take(row.len() as int) =~= row.deep_view());
    r
}

impl PreviewGate {
    pub closed spec fn view_gate(&self) -> GateV {
        GateV { limit: self.limit as nat, buf: self.buf.deep_view(), shown: self.shown }
    }

    /// A gate that previews the first `limit` rows.
    pub fn new(limit: usize) -> (g: PreviewGate)
        ensures
            g.view_gate() == fresh_gate(limit as nat),
    {
        let g = PreviewGate { limit, buf: Vec::new(), shown: false };
        assert(g.buf.deep_view() =~= Seq::<RowV>::empty());
        g
    }

    /// Offers a row; returns the preview when it is complete.
    pub fn offer(&mut self, row: &Vec<String>) -> (p: Option<Vec<Vec<String>>>)
        ensures
            (final(self).view_gate(), opt_rows_view(p)) == gate_offer(old(self).view_gate(), row.deep_view()),
    {
        if self.shown {
            return None;
        }
        let ghost before = self.buf.deep_view();
        self.buf.push(clone_row(row));
        assert(self.buf.deep_view() =~= before.push(row.deep_view()));
        if self.buf.len() >= self.limit {
            self.shown = true;
            let mut p: Vec<Vec<String>> = Vec::new();
            std::mem::swap(&mut p, &mut self.buf);
            assert(self.buf.deep_view() =~= Seq::<RowV>::empty());
            return Some(p);
        }
        None
    }

    /// At the end of the input: the rows still buffered, if no preview was
    /// handed out yet.
    pub fn close(&mut self) -> (p: Option<Vec<Vec<String>>>)
        ensures
            opt_rows_view(p) == gate_close(old(self).view_gate()),
            final(self).view_gate() == (if p is Some {
                GateV { limit: old(self).view_gate().limit, buf: Seq::empty(), shown: old(self).view_gate().shown }
            } else {
                old(self).view_gate()
            }),
    {
        if !self.shown && self.buf.len() > 0 {
            let mut p: Vec<Vec<String>> = Vec::new();
            std::mem::swap(&mut p, &mut self.buf);
            assert(self.buf.deep_view() =~= Seq::<RowV>::empty());
            Some(p)
        } else {
            None
        }
    }
}

// ----------------------------------------------------------------------
// batches
// ----------------------------------------------------------------------

/// Adding a row to a batch of capacity `size`: the batch is handed out
/// when it holds `size` rows.
pub open spec fn chunk_push(size: nat, chunk: Seq<RowV>, row: RowV) -> (Seq<RowV>, Option<Seq<RowV>>) {
    let c = chunk.push(row);
    if c.len() >= size {
        (Seq::empty(), Some(c))
    } else {
        (c, None)
    }
}

/// Pushes every row in turn; gives the rows left in the batch and the
/// batches handed out.
pub open spec fn chunk_feed(size: nat, chunk: Seq<RowV>, rows: Seq<RowV>) -> (Seq<RowV>, Seq<Seq<RowV>>)
    decreases rows.len(),
{
    if rows.len() == 0 {
        (chunk, Seq::empty())
    } else {
        let (c1, outs) = chunk_feed(size, chunk, rows.drop_last());
        let (c2, o) = chunk_push(size, c1, rows.last());
        (
            c2,
            match o {
                Some(b) => outs.push(b),
                None => outs,
            },
        )
    }
}

/// All the batches, flattened.
pub open spec fn flatten(bs: Seq<Seq<RowV>>) -> Seq<RowV>
    decreases bs.len(),
{
    if bs.len() == 0 {
        Seq::empty()
    } else {
        flatten(bs.drop_last()) + bs.last()
    }
}

/// Batching loses, repeats and reorders no row: the batches handed out,
/// followed by what is left, are the input in order; every batch handed
/// out holds exactly `size` rows and what is left holds fewer.
pub proof fn law_batches_partition_rows(size: nat, rows: Seq<RowV>)
    requires
        size > 0,
    ensures
        ({
            let (rest, outs) = chunk_feed(size, Seq::empty(), rows);
            &&& flatten(outs) + rest == rows
            &&& forall|i: int| 0 <= i < outs.len() ==> (#[trigger] outs[i]).len() == size
            &&& rest.len() < size
        }),
    decreases rows.len(),
{
    if rows.len() == 0 {
        let (rest, outs) = chunk_feed(size, Seq::empty(), rows);
        assert(flatten(outs) + rest =~= rows);
    } else {
        law_batches_partition_rows(size, rows.drop_last());
        let (c1, outs1) = chunk_feed(size, Seq::empty(), rows.drop_last());
        let (rest, outs) = chunk_feed(size, Seq::empty(), rows);
        let c = c1.push(rows.last());
        assert(rows =~= rows.drop_last().push(rows.last()));
        assert(flatten(outs1) + c =~= (flatten(outs1) + c1).push(rows.last()));
        if c.len() >= size {
            assert(outs == outs1.push(c));
            assert(outs.drop_last() == outs1);
            assert(flatten(outs) == flatten(outs1) + c);
            assert(rest =~= Seq::<RowV>::empty());
            assert(flatten(outs) + rest =~= rows);
            assert(c.len() == size);
        } else {
            assert(outs == outs1);
            assert(rest == c);
            assert(flatten(outs) + rest =~= rows);
        }
    }
}

/// Groups rows into batches of a fixed size.
pub struct Chunker {
    size: usize,
    chunk: Vec<Vec<String>>,
}

impl Chunker {
    pub closed spec fn size(&self) -> nat {
        self.size as nat
    }

    pub closed spec fn pending(&self) -> Seq<RowV> {
        self.chunk.deep_view()
    }

    /// An empty batcher of `size` rows per batch.
    pub fn new(size: usize) -> (c: Chunker)
        ensures
            c.size() == size,
            c.pending() == Seq::<RowV>::empty(),
    {
        let c = Chunker { size, chunk: Vec::new() };
        assert(c.chunk.deep_view() =~= Seq::<RowV>::empty());
        c
    }

    /// Adds a row; returns the batch when it is full.
    pub fn push(&mut self, row: Vec<String>) -> (b: Option<Vec<Vec<String>>>)
        ensures
            final(self).size() == old(self).size(),
            (final(self).pending(), opt_rows_view(b)) == chunk_push(old(self).size(), old(self).pending(), row.deep_view()),
    {
        let ghost before = self.chunk.deep_view();
        let ghost rv = row.deep_view();
        self.chunk.push(row);
        assert(self.chunk.deep_view() =~= before.push(rv));
        if self.chunk.len() >= self.size {
            let mut b: Vec<Vec<String>> = Vec::new();
            std::mem::swap(&mut b, &mut self.chunk);
            assert(self.chunk.deep_view() =~= Seq::<RowV>::empty());
            Some(b)
        } else {
            None
        }
    }

    /// The rows left at the end of the input, if any.
    pub fn finish(self) -> (b: Option<Vec<Vec<String>>>)
        ensures
            b is Some <==> self.pending().len() > 0,
            b matches Some(v) ==> v.deep_view() == self.pending(),
    {
        if self.chunk.len() > 0 {
            Some(self.chunk)
        } else {
            None
        }
    }
}

/// Whether a progress line is due after `total` rows: every `cadence` rows
/// (`u64::is_multiple_of`).
pub fn progress_due(total: u64, cadence: u64) -> (r: bool)
    ensures
        r == (if cadence == 0 {
            total == 0
        } else {
            total % cadence == 0
        }),
{
    if cadence == 0 {
        total == 0
    } else {
        total % cadence == 0
    }
}

// ----------------------------------------------------------------------
// Parquet column buffers
// ----------------------------------------------------------------------

/// Column `j` of a row: its `j`-th field, or nothing when the row is short.
pub open spec fn field_or_null(row: RowV, j: int) -> Option<Seq<char>> {
    if j < row.len() {
        Some(row[j])
    } else {
        None
    }
}

pub open spec fn cells_view(col: Vec<Option<String>>) -> Seq<Option<Seq<char>>> {
    col@.map_values(|c: Option<String>| match c {
        Some(s) => Some(s@),
        None => None,
    })
}

/// Spreads a row over the column buffers: buffer `j` gets the row's
/// `j`-th field (nothing when the row is shorter); extra fields are dropped.
pub fn push_row_columns(columns: &mut Vec<Vec<Option<String>>>, record: Vec<String>)
    ensures
        final(columns)@.len() == old(columns)@.len(),
        forall|j: int| 0 <= j < old(columns)@.len() ==> cells_view(#[trigger] final(columns)@[j]) == cells_view(
            old(columns)@[j],
        ).push(field_or_null(record.deep_view(), j)),
{
    let ghost rv = record.deep_view();
    let mut j: usize = 0;
    while j < columns.len()
        invariant
            j <= columns.len(),
            columns@.len() == old(columns)@.len(),
            rv == record.deep_view(),
            forall|k: int| 0 <= k < j ==> cells_view(#[trigger] columns@[k]) == cells_view(
                old(columns)@[k],
            ).push(field_or_null(rv, k)),
            forall|k: int| j <= k < columns@.len() ==> #[trigger] columns@[k] == old(columns)@[k],
        decreases columns.len() - j,
    {
        let v: Option<String> = if j < record.len() {
            Some(record[j].clone())
        } else {
            None
        };
        let ghost before = cells_view(columns@[j as int]);
        let ghost vv = v;
        columns[j].push(v);
        assert(cells_view(columns@[j as int]) =~= before.push(field_or_null(rv, j as int)));
        j += 1;
    }
}

/// Empty column buffers, one per column.
pub fn empty_columns(col_count: usize) -> (c: Vec<Vec<Option<String>>>)
    ensures
        c@.len() == col_count,
        forall|j: int| 0 <= j < col_count ==> (#[trigger] c@[j])@.len() == 0,
{
    let mut c: Vec<Vec<Option<String>>> = Vec::new();
    let mut j: usize = 0;
    while j < col_count
        invariant
            j <= col_count,
            c@.len() == j,
            forall|k: int| 0 <= k < j ==> (#[trigger] c@[k])@.len() == 0,
        decreases col_count - j,
    {
        c.push(Vec::new());
        j += 1;
    }
    c
}

/// Rows read before a Parquet file is written: enough to infer column
/// types when inference is on, else just the preview.
pub fn sample_target(infer_types: bool) -> (r: usize)
    ensures
        r == (if infer_types {
            PARQUET_INFER_SAMPLE
        } else {
            PREVIEW_ROWS
        }),
{
    if infer_types {
        PARQUET_INFER_SAMPLE
    } else {
        PREVIEW_ROWS
    }
}

} // verus!
