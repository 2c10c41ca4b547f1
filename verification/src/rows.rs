//! Row hygiene shared by every reader: pads short rows, drops runaway-wide
//! ones, optionally truncates fields, and counts skips for the exit code.

use vstd::prelude::*;
use vstd::string::{StrSliceExecFns, StringExecFns};
use crate::config::{MAX_FIELD_CHARS, SQL_TUPLE_FIELD_FACTOR, SQL_TUPLE_FIELD_MIN, SKIP_WARN_LIMIT};

verus! {

/// Why a row was realigned or dropped.
#[derive(Debug, Clone, Copy, PartialEq, Eq, Structural)]
pub enum SkipReason {
    /// More fields than columns (lost delimiter / unquoted separator?).
    TooMany,
    /// Fewer fields than columns.
    TooFew,
}

/// A malformed row met in strict mode.
#[derive(Debug, Clone, Copy, PartialEq, Eq, Structural)]
pub struct RowError {
    /// Zero-based index of the row in its input.
    pub index: u64,
    pub reason: SkipReason,
    /// Fields the row had.
    pub got: usize,
    /// Fields expected.
    pub expected: usize,
}

/// What to tell the user about a realigned or dropped row.
#[derive(Debug, Clone, Copy, PartialEq, Eq, Structural)]
pub enum SkipNotice {
    /// Nothing to say.
    Quiet,
    /// Row `index` had `got` fields and was realigned or dropped.
    Warn { index: u64, got: usize, reason: SkipReason },
    /// The warning limit was just reached: further warnings are suppressed.
    Suppressed,
}

/// A row from a guarded stream that could not be emitted.
#[derive(Debug)]
pub enum RowFailure<E> {
    /// The reader failed.
    Read(E),
    /// The row was malformed and the guard is strict.
    Malformed(RowError),
}

/// Width above which a malformed row is dropped instead of realigned:
/// `max(expected.saturating_mul(SQL_TUPLE_FIELD_FACTOR), SQL_TUPLE_FIELD_MIN)`.
pub open spec fn drop_width(expected: usize) -> int {
    let m = if expected * SQL_TUPLE_FIELD_FACTOR > usize::MAX {
        usize::MAX as int
    } else {
        expected * SQL_TUPLE_FIELD_FACTOR
    };
    if m > SQL_TUPLE_FIELD_MIN {
        m
    } else {
        SQL_TUPLE_FIELD_MIN as int
    }
}

/// The first `max` characters of `s` (all of it when shorter).
pub open spec fn clip_chars(s: Seq<char>, max: nat) -> Seq<char> {
    if s.len() > max {
        s.take(max as int)
    } else {
        s
    }
}

/// `row` cut or padded with empty fields to `n` fields.
pub open spec fn fit_width(row: Seq<Seq<char>>, n: nat) -> Seq<Seq<char>> {
    if row.len() > n {
        row.take(n as int)
    } else {
        row + Seq::new((n - row.len()) as nat, |i: int| Seq::<char>::empty())
    }
}

/// Every field clipped to `max` characters when `max > 0`.
pub open spec fn clip_fields(row: Seq<Seq<char>>, max: nat) -> Seq<Seq<char>> {
    if max > 0 {
        row.map_values(|c: Seq<char>| clip_chars(c, max))
    } else {
        row
    }
}

pub open spec fn reason_for(got: nat, expected: nat) -> SkipReason {
    if got > expected {
        SkipReason::TooMany
    } else {
        SkipReason::TooFew
    }
}

/// What the guard makes of row `index`: a row of the expected width is
/// kept; a malformed one is an error in strict mode, dropped when wider
/// than `drop_width`, and realigned to the expected width otherwise. Kept
/// fields are clipped to `max_field` characters when `max_field > 0`.
pub open spec fn checked_row(
    expected: usize,
    max_field: usize,
    strict: bool,
    index: u64,
    row: Seq<Seq<char>>,
) -> Result<Option<Seq<Seq<char>>>, RowError> {
    let got = row.len();
    if got != expected {
        if strict {
            Err(RowError { index, reason: reason_for(got, expected as nat), got: got as usize, expected })
        } else if got > drop_width(expected) {
            Ok(None)
        } else {
            Ok(Some(clip_fields(fit_width(row, expected as nat), max_field as nat)))
        }
    } else {
        Ok(Some(clip_fields(row, max_field as nat)))
    }
}

/// A row counts as skipped when it is malformed and the guard is lenient.
pub open spec fn counts_as_skip(expected: usize, strict: bool, row: Seq<Seq<char>>) -> bool {
    row.len() != expected && !strict
}

/// The notice for a skip, given how many warnings were issued before.
pub open spec fn notice_for(warned: u64, index: u64, got: usize, reason: SkipReason) -> SkipNotice {
    if warned < SKIP_WARN_LIMIT {
        SkipNotice::Warn { index, got, reason }
    } else if warned == SKIP_WARN_LIMIT {
        SkipNotice::Suppressed
    } else {
        SkipNotice::Quiet
    }
}

pub open spec fn wrap_inc(x: u64) -> u64 {
    if x == u64::MAX {
        0
    } else {
        (x + 1) as u64
    }
}

/// Normalizes the rows of one input to the width of its header.
#[derive(Debug)]
pub struct RowGuard {
    expected: usize,
    max_field: usize,
    strict: bool,
    skipped: u64,
    warned: u64,
}

pub open spec fn opt_row(r: Result<Option<Vec<String>>, RowError>) -> Result<Option<Seq<Seq<char>>>, RowError> {
    match r {
        Ok(Some(v)) => Ok(Some(v.deep_view())),
        Ok(None) => Ok(None),
        Err(e) => Err(e),
    }
}

/// `String::truncate` to the first `max_chars` characters.
pub fn truncate_in_place(s: &mut String, max_chars: usize)
    ensures
        final(s)@ == clip_chars(old(s)@, max_chars as nat),
{
    let n = s.as_str().unicode_len();
    if n > max_chars {
        let t = String::from_str(s.as_str().substring_char(0, max_chars));
        *s = t;
    }
}

/// A field cut to its first `MAX_FIELD_CHARS` characters.
pub fn truncate_field_string_owned(input: &str) -> (r: String)
    ensures
        r@ == clip_chars(input@, MAX_FIELD_CHARS as nat),
{
    let mut s = String::from_str(input);
    truncate_in_place(&mut s, MAX_FIELD_CHARS);
    s
}

impl RowGuard {
    pub closed spec fn expected(&self) -> usize {
        self.expected
    }

    pub closed spec fn max_field(&self) -> usize {
        self.max_field
    }

    pub closed spec fn strict(&self) -> bool {
        self.strict
    }

    /// Rows realigned or dropped so far.
    pub closed spec fn skip_count(&self) -> u64 {
        self.skipped
    }

    /// Skips reported so far (warned about or not).
    pub closed spec fn warn_count(&self) -> u64 {
        self.warned
    }

    /// A guard for rows of `expected` fields; fields are clipped to
    /// `max_field` characters (0 keeps them whole); a strict guard refuses
    /// malformed rows.
    pub fn new(expected: usize, max_field: usize, strict: bool) -> (g: Self)
        ensures
            g.expected() == expected,
            g.max_field() == max_field,
            g.strict() == strict,
            g.skip_count() == 0,
            g.warn_count() == 0,
    {
        RowGuard { expected, max_field, strict, skipped: 0, warned: 0 }
    }

    /// Rows realigned or dropped so far.
    pub fn skipped(&self) -> (n: u64)
        ensures
            n == self.skip_count(),
    {
        self.skipped
    }

    /// Counts a skip and says what to tell the user.
    fn record_skip(&mut self, index: u64, got: usize, reason: SkipReason) -> (n: SkipNotice)
        ensures
            final(self).expected == old(self).expected,
            final(self).max_field == old(self).max_field,
            final(self).strict == old(self).strict,
            final(self).skipped == wrap_inc(old(self).skipped),
            final(self).warned == wrap_inc(old(self).warned),
            n == notice_for(old(self).warned, index, got, reason),
    {
        self.skipped = self.skipped.wrapping_add(1);
        let warned = self.warned;
        self.warned = self.warned.wrapping_add(1);
        if warned < SKIP_WARN_LIMIT {
            SkipNotice::Warn { index, got, reason }
        } else if warned == SKIP_WARN_LIMIT {
            SkipNotice::Suppressed
        } else {
            SkipNotice::Quiet
        }
    }

    /// Normalizes row `index`: `Ok(Some)` to emit, `Ok(None)` to skip,
    /// `Err` in strict mode; and what to tell the user.
    pub fn check(&mut self, index: u64, row: Vec<String>) -> (r: (Result<Option<Vec<String>>, RowError>, SkipNotice))
        ensures
            final(self).expected() == old(self).expected(),
            final(self).max_field() == old(self).max_field(),
            final(self).strict() == old(self).strict(),
            opt_row(r.0) == checked_row(
                old(self).expected(),
                old(self).max_field(),
                old(self).strict(),
                index,
                row.deep_view(),
            ),
            counts_as_skip(old(self).expected(), old(self).strict(), row.deep_view()) ==> {
                &&& final(self).skip_count() == wrap_inc(old(self).skip_count())
                &&& final(self).warn_count() == wrap_inc(old(self).warn_count())
                &&& r.1 == notice_for(
                    old(self).warn_count(),
                    index,
                    row@.len() as usize,
                    reason_for(row@.len(), old(self).expected() as nat),
                )
            },
            !counts_as_skip(old(self).expected(), old(self).strict(), row.deep_view()) ==> {
                &&& final(self).skip_count() == old(self).skip_count()
                &&& final(self).warn_count() == old(self).warn_count()
                &&& r.1 == SkipNotice::Quiet
            },
            // every emitted row has the expected width, and short enough fields
            r.0 matches Ok(Some(out)) ==> out@.len() == old(self).expected(),
            r.0 matches Ok(Some(out)) ==> old(self).max_field() > 0 ==> forall|i: int|
                0 <= i < out@.len() ==> (#[trigger] out@[i])@.len() <= old(self).max_field(),
    {
        let mut row = row;
        let ghost r0 = row.deep_view();
        let got = row.len();
        let expected = self.expected;
        let mut notice = SkipNotice::Quiet;
        if got != expected {
            let reason = if got > expected {
                SkipReason::TooMany
            } else {
                SkipReason::TooFew
            };
            if self.strict {
                return (Err(RowError { index, reason, got, expected }), SkipNotice::Quiet);
            }
            notice = self.record_skip(index, got, reason);
            let m = match expected.checked_mul(SQL_TUPLE_FIELD_FACTOR) {
                Some(m) => m,
                None => usize::MAX,
            };
            let limit = if m > SQL_TUPLE_FIELD_MIN {
                m
            } else {
                SQL_TUPLE_FIELD_MIN
            };
            if got > limit {
                return (Ok(None), notice);
            }
            if got > expected {
                row.truncate(expected);
                assert(row.deep_view() =~= fit_width(r0, expected as nat));
            } else {
                while row.len() < expected
                    invariant
                        row.len() <= expected,
                        r0.len() <= expected,
                        row.deep_view() =~= fit_width(r0, expected as nat).take(row.len() as int),
                        r0.len() <= row.len(),
                    decreases expected - row.len(),
                {
                    let ghost before = row.deep_view();
                    row.push(String::new());
                    assert(row.deep_view() =~= before.push(Seq::<char>::empty()));
                    assert(fit_width(r0, expected as nat).take(row.len() as int) =~= fit_width(
                        r0,
                        expected as nat,
                    ).take(row.len() - 1).push(Seq::<char>::empty()));
                }
                assert(fit_width(r0, expected as nat).take(expected as int) =~= fit_width(
                    r0,
                    expected as nat,
                ));
            }
        }
        let ghost fitted = row.deep_view();
        assert(fitted.len() == expected);
        if self.max_field > 0 {
            let mut i: usize = 0;
            while i < row.len()
                invariant
                    i <= row.len(),
                    row.len() == fitted.len(),
                    self.max_field > 0,
                    forall|j: int| 0 <= j < i ==> (#[trigger] row@[j])@ == clip_chars(fitted[j], self.max_field as nat),
                    forall|j: int| i <= j < row.len() ==> (#[trigger] row@[j])@ == fitted[j],
                decreases row.len() - i,
            {
                let mut cell = row[i].clone();
                truncate_in_place(&mut cell, self.max_field);
                row.set(i, cell);
                i += 1;
            }
            assert(row.deep_view() =~= clip_fields(fitted, self.max_field as nat));
        }
        (Ok(Some(row)), notice)
    }

    /// One item of a raw row stream, at position `index`, through the guard:
    /// `None` when the row is dropped.
    pub fn pass_item<E>(&mut self, index: u64, res: Result<Vec<String>, E>) -> (r: (Option<Result<Vec<String>, RowFailure<E>>>, SkipNotice))
        ensures
            final(self).expected() == old(self).expected(),
            final(self).max_field() == old(self).max_field(),
            final(self).strict() == old(self).strict(),
            admitted(old(self).expected(), old(self).max_field(), old(self).strict(), index, res_rows(res))
                == item_view(r.0),
            res is Err ==> final(self).skip_count() == old(self).skip_count() && r.1 == SkipNotice::Quiet,
            final(self).skip_count() == (if item_is_skip(old(self).expected(), old(self).strict(), res_rows(res)) {
                wrap_inc(old(self).skip_count())
            } else {
                old(self).skip_count()
            }),
            final(self).warn_count() == (if item_is_skip(old(self).expected(), old(self).strict(), res_rows(res)) {
                wrap_inc(old(self).warn_count())
            } else {
                old(self).warn_count()
            }),
            r.1 == notice_of_item(old(self).warn_count(), old(self).expected(), old(self).strict(), index, res_rows(res)),
    {
        match res {
            Ok(row) => {
                let (c, n) = self.check(index, row);
                match c {
                    Ok(Some(r)) => (Some(Ok(r)), n),
                    Ok(None) => (None, n),
                    Err(e) => (Some(Err(RowFailure::Malformed(e))), n),
                }
            },
            Err(e) => (Some(Err(RowFailure::Read(e))), SkipNotice::Quiet),
        }
    }

    /// The number of rows realigned or dropped, for the closing summary.
    pub fn finish(&self) -> (n: u64)
        ensures
            n == self.skip_count(),
    {
        self.skipped()
    }
}

/// A stream item seen through views: a row or a read error.
pub open spec fn res_rows<E>(res: Result<Vec<String>, E>) -> Result<Seq<Seq<char>>, E> {
    match res {
        Ok(v) => Ok(v.deep_view()),
        Err(e) => Err(e),
    }
}

pub enum Admitted<E> {
    Row(Seq<Seq<char>>),
    ReadError(E),
    Malformed(RowError),
    Dropped,
}

/// What the guard emits for one stream item.
pub open spec fn admitted<E>(expected: usize, max_field: usize, strict: bool, index: u64, res: Result<Seq<Seq<char>>, E>) -> Admitted<E> {
    match res {
        Err(e) => Admitted::ReadError(e),
        Ok(row) => match checked_row(expected, max_field, strict, index, row) {
            Ok(Some(r)) => Admitted::Row(r),
            Ok(None) => Admitted::Dropped,
            Err(e) => Admitted::Malformed(e),
        },
    }
}

pub open spec fn item_view<E>(r: Option<Result<Vec<String>, RowFailure<E>>>) -> Admitted<E> {
    match r {
        None => Admitted::Dropped,
        Some(Ok(v)) => Admitted::Row(v.deep_view()),
        Some(Err(RowFailure::Read(e))) => Admitted::ReadError(e),
        Some(Err(RowFailure::Malformed(e))) => Admitted::Malformed(e),
    }
}

/// The items of a whole row stream through the guard, dropped rows left out.
pub open spec fn guarded_items<E>(expected: usize, max_field: usize, strict: bool, rows: Seq<Result<Seq<Seq<char>>, E>>) -> Seq<Admitted<E>>
    decreases rows.len(),
{
    if rows.len() == 0 {
        Seq::empty()
    } else {
        let prev = guarded_items(expected, max_field, strict, rows.drop_last());
        match admitted(expected, max_field, strict, (rows.len() - 1) as u64, rows.last()) {
            Admitted::Dropped => prev,
            a => prev.push(a),
        }
    }
}

pub open spec fn items_view<E>(v: Seq<Result<Vec<String>, RowFailure<E>>>) -> Seq<Admitted<E>> {
    v.map_values(|r: Result<Vec<String>, RowFailure<E>>| item_view(Some(r)))
}

/// A stream item that a lenient guard realigns or drops: a row of the
/// wrong width.
pub open spec fn item_is_skip<E>(expected: usize, strict: bool, res: Result<Seq<Seq<char>>, E>) -> bool {
    match res {
        Ok(row) => counts_as_skip(expected, strict, row),
        Err(_) => false,
    }
}

/// What the guard tells the user about one stream item, `warned`
/// warnings having been issued before.
pub open spec fn notice_of_item<E>(warned: u64, expected: usize, strict: bool, index: u64, res: Result<Seq<Seq<char>>, E>) -> SkipNotice {
    match res {
        Ok(row) => if counts_as_skip(expected, strict, row) {
            notice_for(warned, index, row.len() as usize, reason_for(row.len(), expected as nat))
        } else {
            SkipNotice::Quiet
        },
        Err(_) => SkipNotice::Quiet,
    }
}

/// How many items of a stream a guard realigns or drops.
pub open spec fn skip_total<E>(expected: usize, strict: bool, rows: Seq<Result<Seq<Seq<char>>, E>>) -> nat
    decreases rows.len(),
{
    if rows.len() == 0 {
        0
    } else {
        skip_total(expected, strict, rows.drop_last()) + if item_is_skip(expected, strict, rows.last()) {
            1nat
        } else {
            0nat
        }
    }
}

/// Over a stream, the skip count moves one item at a time: it grows by one
/// exactly at each row of the wrong width (in a lenient guard) and stays
/// otherwise, so it never decreases along the stream.
pub proof fn law_skip_count_over_stream<E>(expected: usize, strict: bool, rows: Seq<Result<Seq<Seq<char>>, E>>)
    ensures
        forall|j: int| 0 <= j < rows.len() ==> #[trigger] skip_total(expected, strict, rows.take(j + 1))
            == skip_total(expected, strict, rows.take(j)) + (if item_is_skip(expected, strict, rows[j]) {
            1int
        } else {
            0int
        }),
        forall|i: int, j: int| 0 <= i <= j <= rows.len() ==> #[trigger] skip_total(expected, strict, rows.take(i))
            <= #[trigger] skip_total(expected, strict, rows.take(j)),
    decreases rows.len(),
{
    assert forall|j: int| 0 <= j < rows.len() implies #[trigger] skip_total(expected, strict, rows.take(j + 1))
        == skip_total(expected, strict, rows.take(j)) + (if item_is_skip(expected, strict, rows[j]) {
        1int
    } else {
        0int
    }) by {
        assert(rows.take(j + 1).drop_last() =~= rows.take(j));
        assert(rows.take(j + 1).last() == rows[j]);
    }
    assert forall|i: int, j: int| 0 <= i <= j <= rows.len() implies #[trigger] skip_total(expected, strict, rows.take(i))
        <= #[trigger] skip_total(expected, strict, rows.take(j)) by {
        lemma_skip_total_prefix(expected, strict, rows.take(j), i);
        assert(rows.take(j).take(i) =~= rows.take(i));
    }
}

proof fn lemma_skip_total_prefix<E>(expected: usize, strict: bool, rows: Seq<Result<Seq<Seq<char>>, E>>, i: int)
    requires
        0 <= i <= rows.len(),
    ensures
        skip_total(expected, strict, rows.take(i)) <= skip_total(expected, strict, rows),
    decreases rows.len(),
{
    if i < rows.len() {
        lemma_skip_total_prefix(expected, strict, rows.drop_last(), i);
        assert(rows.drop_last().take(i) =~= rows.take(i));
    } else {
        assert(rows.take(i) =~= rows);
    }
}

/// For a fresh guard, what the user is told about item `j` of a stream:
/// a warning for each of the first `SKIP_WARN_LIMIT` rows realigned or
/// dropped, one notice that further warnings are suppressed at the next
/// such row, and nothing for any later one or for a well-formed row.
pub proof fn law_warnings_then_suppressed<E>(expected: usize, strict: bool, rows: Seq<Result<Seq<Seq<char>>, E>>, j: int)
    requires
        0 <= j < rows.len(),
        skip_total(expected, strict, rows.take(j)) < 0x1_0000_0000_0000_0000,
    ensures
        ({
            let before = skip_total(expected, strict, rows.take(j));
            let n = notice_of_item(
                ((0 + before) % 0x1_0000_0000_0000_0000) as u64,
                expected,
                strict,
                j as u64,
                rows[j],
            );
            &&& (n is Warn <==> item_is_skip(expected, strict, rows[j]) && before < SKIP_WARN_LIMIT)
            &&& (n is Suppressed <==> item_is_skip(expected, strict, rows[j]) && before == SKIP_WARN_LIMIT)
            &&& (n is Quiet <==> !item_is_skip(expected, strict, rows[j]) || before > SKIP_WARN_LIMIT)
        }),
{
}

/// Streams a whole row stream through the guard: rows are numbered from
/// 0 in input order, dropped rows are left out; the notices come in order.
pub fn guarded<E>(rows: Vec<Result<Vec<String>, E>>, guard: &mut RowGuard) -> (r: (Vec<Result<Vec<String>, RowFailure<E>>>, Vec<SkipNotice>))
    requires
        rows.len() <= u64::MAX,
    ensures
        final(guard).expected() == old(guard).expected(),
        final(guard).max_field() == old(guard).max_field(),
        final(guard).strict() == old(guard).strict(),
        items_view(r.0@) == guarded_items(
            old(guard).expected(),
            old(guard).max_field(),
            old(guard).strict(),
            rows@.map_values(|x: Result<Vec<String>, E>| res_rows(x)),
        ),
        final(guard).skip_count() as int == (old(guard).skip_count() + skip_total(
            old(guard).expected(),
            old(guard).strict(),
            rows@.map_values(|x: Result<Vec<String>, E>| res_rows(x)),
        )) % 0x1_0000_0000_0000_0000,
        r.1@.len() == rows@.len(),
        forall|j: int| 0 <= j < rows@.len() ==> #[trigger] r.1@[j] == notice_of_item(
            ((old(guard).warn_count() + skip_total(
                old(guard).expected(),
                old(guard).strict(),
                rows@.map_values(|x: Result<Vec<String>, E>| res_rows(x)).take(j),
            )) % 0x1_0000_0000_0000_0000) as u64,
            old(guard).expected(),
            old(guard).strict(),
            j as u64,
            res_rows(rows@[j]),
        ),
{
    let ghost input = rows@.map_values(|x: Result<Vec<String>, E>| res_rows(x));
    let ghost e = guard.expected();
    let ghost m = guard.max_field();
    let ghost s = guard.strict();
    let ghost k0 = guard.skip_count();
    let ghost w0 = guard.warn_count();
    let mut out: Vec<Result<Vec<String>, RowFailure<E>>> = Vec::new();
    let mut notices: Vec<SkipNotice> = Vec::new();
    let n = rows.len();
    let ghost raw = rows@;
    let mut rows = rows;
    let mut rev: Vec<Result<Vec<String>, E>> = Vec::new();
    while rows.len() > 0
        invariant
            rows.len() + rev.len() == n,
            n == raw.len(),
            rows@ == raw.take(rows.len() as int),
            forall|k: int| 0 <= k < rev.len() ==> #[trigger] rev@[k] == raw[n - 1 - k],
        decreases rows.len(),
    {
        let ghost before = rows@;
        let x = rows.pop().unwrap();
        assert(rows@ =~= raw.take(rows.len() as int));
        rev.push(x);
    }
    let mut i: u64 = 0;
    assert(input.take(0) =~= Seq::<Result<Seq<Seq<char>>, E>>::empty());
    assert(items_view(out@) =~= Seq::<Admitted<E>>::empty());
    while (i as usize) < n
        invariant
            i <= n,
            n <= u64::MAX,
            n == input.len(),
            n == raw.len(),
            input == raw.map_values(|x: Result<Vec<String>, E>| res_rows(x)),
            rev.len() == n - i,
            forall|k: int| 0 <= k < rev.len() ==> #[trigger] rev@[k] == raw[n - 1 - k],
            guard.expected() == e,
            guard.max_field() == m,
            guard.strict() == s,
            items_view(out@) == guarded_items(e, m, s, input.take(i as int)),
            guard.skip_count() as int == (k0 + skip_total(e, s, input.take(i as int))) % 0x1_0000_0000_0000_0000,
            guard.warn_count() as int == (w0 + skip_total(e, s, input.take(i as int))) % 0x1_0000_0000_0000_0000,
            notices@.len() == i,
            forall|j: int| 0 <= j < i ==> #[trigger] notices@[j] == notice_of_item(
                ((w0 + skip_total(e, s, input.take(j))) % 0x1_0000_0000_0000_0000) as u64,
                e,
                s,
                j as u64,
                input[j],
            ),
        decreases n - i,
    {
        let item = rev.pop().unwrap();
        let ghost x = res_rows(item);
        assert(item == raw[i as int]);
        assert(x == input[i as int]);
        let (a, note) = guard.pass_item(i, item);
        notices.push(note);
        assert(input.take(i + 1).drop_last() =~= input.take(i as int));
        assert(input.take(i + 1).last() == x);
        match a {
            Some(r) => {
                let ghost before = items_view(out@);
                out.push(r);
                assert(items_view(out@) =~= before.push(item_view(Some(r))));
            },
            None => {},
        }
        i += 1;
    }
    assert(input.take(n as int) =~= input);
    (out, notices)
}

/// What a lenient guard that keeps fields whole makes of a row of the
/// wrong width: a row wider than four times the expected width (and wider
/// than 64 fields) is dropped; any other is cut to the expected width or
/// padded with empty fields. A strict guard refuses it, saying whether it
/// had too many or too few fields.
pub proof fn law_malformed_rows(expected: usize, index: u64, row: Seq<Seq<char>>)
    requires
        row.len() != expected,
    ensures
        ({
            let wide: int = if expected * 4 > usize::MAX { usize::MAX as int } else { expected * 4 };
            let limit: int = if wide > 64 { wide } else { 64 };
            &&& row.len() > limit ==> checked_row(expected, 0, false, index, row) == Ok::<Option<Seq<Seq<char>>>, RowError>(None)
            &&& row.len() <= limit ==> (checked_row(expected, 0, false, index, row) matches Ok(Some(r)) && r.len()
                == expected && forall|k: int| 0 <= k < expected ==> #[trigger] r[k] == (if k < row.len() {
                row[k]
            } else {
                Seq::<char>::empty()
            }))
            &&& checked_row(expected, 0, true, index, row) == Err::<Option<Seq<Seq<char>>>, RowError>(RowError {
                index,
                reason: if row.len() > expected { SkipReason::TooMany } else { SkipReason::TooFew },
                got: row.len() as usize,
                expected,
            })
        }),
{
    if row.len() <= drop_width(expected) {
        let f = fit_width(row, expected as nat);
        assert forall|k: int| 0 <= k < expected implies #[trigger] f[k] == (if k < row.len() {
            row[k]
        } else {
            Seq::<char>::empty()
        }) by {
        }
    }
}

/// A row with every field at most `max` characters long (any row when
/// `max` is 0).
pub open spec fn fields_within(row: Seq<Seq<char>>, max: nat) -> bool {
    max > 0 ==> forall|i: int| 0 <= i < row.len() ==> (#[trigger] row[i]).len() <= max
}

proof fn lemma_checked_row_shape(expected: usize, max_field: usize, strict: bool, index: u64, row: Seq<Seq<char>>)
    ensures
        checked_row(expected, max_field, strict, index, row) matches Ok(Some(out)) ==> out.len() == expected
            && fields_within(out, max_field as nat),
{
    let fitted = if row.len() != expected {
        fit_width(row, expected as nat)
    } else {
        row
    };
    if row.len() == expected || (!strict && row.len() <= drop_width(expected)) {
        assert(fitted.len() == expected);
        let out = clip_fields(fitted, max_field as nat);
        assert(out.len() == expected);
        if max_field > 0 {
            assert forall|i: int| 0 <= i < out.len() implies (#[trigger] out[i]).len() <= max_field by {
                assert(out[i] == clip_chars(fitted[i], max_field as nat));
            }
        }
    }
}

/// Every row a guard emits has exactly the expected number of fields, and
/// no field longer than `max_field` characters when `max_field > 0`.
pub proof fn law_guarded_rows_fit<E>(expected: usize, max_field: usize, strict: bool, rows: Seq<Result<Seq<Seq<char>>, E>>)
    ensures
        forall|k: int| 0 <= k < guarded_items(expected, max_field, strict, rows).len() ==> (
        #[trigger] guarded_items(expected, max_field, strict, rows)[k] matches Admitted::Row(r) ==> r.len()
            == expected && fields_within(r, max_field as nat)),
    decreases rows.len(),
{
    if rows.len() > 0 {
        law_guarded_rows_fit(expected, max_field, strict, rows.drop_last());
        let index = (rows.len() - 1) as u64;
        match rows.last() {
            Ok(row) => lemma_checked_row_shape(expected, max_field, strict, index, row),
            Err(_) => {},
        }
        let prev = guarded_items(expected, max_field, strict, rows.drop_last());
        let all = guarded_items(expected, max_field, strict, rows);
        assert forall|k: int| 0 <= k < all.len() implies (#[trigger] all[k] matches Admitted::Row(r) ==> r.len()
            == expected && fields_within(r, max_field as nat)) by {
            if k < prev.len() {
                assert(all[k] == prev[k]);
            }
        }
    }
}

/// A stream of well-formed rows (each of the expected width, no read
/// error) passes through a guard that does not clip fields unchanged: the
/// guard emits every row, as it came.
pub proof fn law_guard_keeps_wellformed<E>(expected: usize, strict: bool, rows: Seq<Seq<Seq<char>>>)
    requires
        forall|k: int| 0 <= k < rows.len() ==> (#[trigger] rows[k]).len() == expected,
    ensures
        guarded_items(
            expected,
            0,
            strict,
            rows.map_values(|r: Seq<Seq<char>>| Ok::<Seq<Seq<char>>, E>(r)),
        ) == rows.map_values(|r: Seq<Seq<char>>| Admitted::<E>::Row(r)),
    decreases rows.len(),
{
    let input = rows.map_values(|r: Seq<Seq<char>>| Ok::<Seq<Seq<char>>, E>(r));
    if rows.len() > 0 {
        law_guard_keeps_wellformed::<E>(expected, strict, rows.drop_last());
        assert(input.drop_last() =~= rows.drop_last().map_values(|r: Seq<Seq<char>>| Ok::<Seq<Seq<char>>, E>(r)));
        assert(rows.map_values(|r: Seq<Seq<char>>| Admitted::<E>::Row(r)) =~= rows.drop_last().map_values(
            |r: Seq<Seq<char>>| Admitted::<E>::Row(r),
        ).push(Admitted::Row(rows.last())));
        assert(input.last() == Ok::<Seq<Seq<char>>, E>(rows.last()));
        assert(rows.last().len() == expected);
    } else {
        assert(input =~= Seq::<Result<Seq<Seq<char>>, E>>::empty());
        assert(rows.map_values(|r: Seq<Seq<char>>| Admitted::<E>::Row(r)) =~= Seq::<Admitted<E>>::empty());
    }
}

} // verus!
