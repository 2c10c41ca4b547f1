//! What the terminal shows, as text: clipped preview cells, row counts with
//! grouped digits, and how an answer to the continue prompt is read.

use vstd::prelude::*;
use crate::text::{
    chars_of, decimal, digit_char, push_char, push_decimal, string_of, to_lowercase, trim,
    trim_ws, unicode_lowercase,
};

verus! {

// ----------------------------------------------------------------------
// clipping
// ----------------------------------------------------------------------

/// Longest cell shown in a preview, in characters.
pub const PREVIEW_CELL_CHARS: usize = 32;

/// `s` when it has at most `max` characters; else its first `max - 1`
/// characters (none when `max` is 0) followed by an ellipsis.
pub open spec fn clip_for_display(s: Seq<char>, max: nat) -> Seq<char> {
    if s.len() <= max {
        s
    } else {
        let keep: int = if max == 0 { 0 } else { max - 1 };
        s.take(keep).push('\u{2026}')
    }
}

/// A clipped cell is the cell itself when it fits; otherwise it has exactly
/// `max` characters (one when `max` is 0): a prefix of the cell followed by
/// an ellipsis.
pub proof fn law_clip_fits(s: Seq<char>, max: nat)
    ensures
        s.len() <= max ==> clip_for_display(s, max) == s,
        s.len() > max ==> {
            let r = clip_for_display(s, max);
            &&& r.len() == (if max == 0 { 1 } else { max })
            &&& r.last() == '\u{2026}'
            &&& forall|i: int| 0 <= i < r.len() - 1 ==> #[trigger] r[i] == s[i]
        },
{
}

/// Shortens a cell for display.
pub fn clip(s: &str, max: usize) -> (r: String)
    ensures
        r@ == clip_for_display(s@, max as nat),
{
    let chars = chars_of(s);
    if chars.len() <= max {
        return string_of(chars.as_slice());
    }
    let keep: usize = if max == 0 { 0 } else { max - 1 };
    let mut head: Vec<char> = Vec::new();
    let mut i: usize = 0;
    while i < keep
        invariant
            i <= keep,
            keep < chars.len(),
            chars@ == s@,
            head@ == s@.take(i as int),
        decreases keep - i,
    {
        head.push(chars[i]);
        i += 1;
        assert(head@ =~= s@.take(i as int));
    }
    let mut out = string_of(head.as_slice());
    push_char(&mut out, '\u{2026}');
    out
}

/// The part of a table a preview shows: at most `max_rows` rows, at most
/// `max_cols` cells of each, every cell clipped.
pub open spec fn preview_of(records: Seq<Seq<Seq<char>>>, max_rows: nat, max_cols: nat) -> Seq<Seq<Seq<char>>> {
    let n = if records.len() < max_rows { records.len() } else { max_rows };
    Seq::new(
        n,
        |i: int|
            {
                let row = records[i];
                let m = if row.len() < max_cols { row.len() } else { max_cols };
                Seq::new(m, |j: int| clip_for_display(row[j], PREVIEW_CELL_CHARS as nat))
            },
    )
}

pub open spec fn table_view(t: Seq<Vec<String>>) -> Seq<Seq<Seq<char>>> {
    t.map_values(|r: Vec<String>| r@.map_values(|c: String| c@))
}

/// The cells of a preview table.
pub fn preview_cells(records: &Vec<Vec<String>>, max_rows: usize, max_cols: usize) -> (r: Vec<Vec<String>>)
    ensures
        table_view(r@) == preview_of(table_view(records@), max_rows as nat, max_cols as nat),
{
    let n = if records.len() < max_rows { records.len() } else { max_rows };
    let mut out: Vec<Vec<String>> = Vec::new();
    let mut i: usize = 0;
    while i < n
        invariant
            i <= n,
            n <= records.len(),
            n == (if records.len() < max_rows { records.len() } else { max_rows }),
            out.len() == i,
            forall|a: int| 0 <= a < i ==> table_view(out@)[a] == #[trigger] preview_of(
                table_view(records@),
                max_rows as nat,
                max_cols as nat,
            )[a],
        decreases n - i,
    {
        let row = &records[i];
        let m = if row.len() < max_cols { row.len() } else { max_cols };
        let mut cells: Vec<String> = Vec::new();
        let mut j: usize = 0;
        while j < m
            invariant
                j <= m,
                m <= row.len(),
                row == &records@[i as int],
                cells.len() == j,
                forall|b: int| 0 <= b < j ==> (#[trigger] cells@[b])@ == clip_for_display(
                    row@[b]@,
                    PREVIEW_CELL_CHARS as nat,
                ),
            decreases m - j,
        {
            let c = clip(row[j].as_str(), PREVIEW_CELL_CHARS);
            cells.push(c);
            j += 1;
        }
        let ghost want = preview_of(table_view(records@), max_rows as nat, max_cols as nat)[i as int];
        assert(cells@.map_values(|c: String| c@) =~= want);
        out.push(cells);
        i += 1;
    }
    assert(table_view(out@) =~= preview_of(table_view(records@), max_rows as nat, max_cols as nat));
    out
}

// ----------------------------------------------------------------------
// grouped digits
// ----------------------------------------------------------------------

/// Three decimal digits of `m` (below 1000), with leading zeros.
pub open spec fn three_digits(m: nat) -> Seq<char> {
    seq![digit_char(m / 100), digit_char((m / 10) % 10), digit_char(m % 10)]
}

/// The decimal form of `n` with a space between groups of three digits,
/// counted from the right: `1 234 567`.
pub open spec fn grouped(n: nat) -> Seq<char>
    decreases n,
{
    if n < 1000 {
        decimal(n)
    } else {
        grouped(n / 1000) + seq![' '] + three_digits(n % 1000)
    }
}

fn digit_of(d: u64) -> (c: char)
    requires
        d < 10,
    ensures
        c == digit_char(d as nat),
{
    let mut s = String::new();
    push_decimal(&mut s, d);
    assert(decimal(d as nat) == seq![digit_char(d as nat)]);
    let cs = chars_of(s.as_str());
    cs[0]
}

/// Formats a row count with its digits grouped in threes.
pub fn fmt_int(n: u64) -> (s: String)
    ensures
        s@ == grouped(n as nat),
    decreases n,
{
    if n < 1000 {
        let mut s = String::new();
        push_decimal(&mut s, n);
        assert(s@ =~= decimal(n as nat));
        return s;
    }
    let mut s = fmt_int(n / 1000);
    let m = n % 1000;
    push_char(&mut s, ' ');
    push_char(&mut s, digit_of(m / 100));
    push_char(&mut s, digit_of((m / 10) % 10));
    push_char(&mut s, digit_of(m % 10));
    assert(s@ =~= grouped(n as nat));
    s
}

/// The characters of `s` other than spaces.
pub open spec fn without_spaces(s: Seq<char>) -> Seq<char>
    decreases s.len(),
{
    if s.len() == 0 {
        Seq::empty()
    } else if s.last() == ' ' {
        without_spaces(s.drop_last())
    } else {
        without_spaces(s.drop_last()).push(s.last())
    }
}

proof fn lemma_without_spaces_concat(a: Seq<char>, b: Seq<char>)
    ensures
        without_spaces(a + b) == without_spaces(a) + without_spaces(b),
    decreases b.len(),
{
    if b.len() == 0 {
        assert(a + b =~= a);
        assert(without_spaces(a) + without_spaces(b) =~= without_spaces(a));
    } else {
        lemma_without_spaces_concat(a, b.drop_last());
        assert((a + b).drop_last() =~= a + b.drop_last());
        assert((a + b).last() == b.last());
        if b.last() != ' ' {
            assert(without_spaces(a) + without_spaces(b) =~= (without_spaces(a) + without_spaces(
                b.drop_last(),
            )).push(b.last()));
        }
    }
}

proof fn lemma_digit_not_space(d: nat)
    requires
        d < 10,
    ensures
        digit_char(d) != ' ',
{
    assert(digit_char(d) as u32 == d + 48);
}

proof fn lemma_decimal_no_spaces(n: nat)
    ensures
        without_spaces(decimal(n)) == decimal(n),
    decreases n,
{
    if n < 10 {
        lemma_digit_not_space(n);
        let s = seq![digit_char(n)];
        assert(s.drop_last() =~= Seq::<char>::empty());
        assert(without_spaces(s) =~= Seq::<char>::empty().push(digit_char(n))) by {
            reveal_with_fuel(without_spaces, 2);
        }
    } else {
        lemma_decimal_no_spaces(n / 10);
        lemma_digit_not_space(n % 10);
        let s = decimal(n);
        assert(s.drop_last() =~= decimal(n / 10));
    }
}

proof fn lemma_decimal_split(n: nat)
    requires
        n >= 1000,
    ensures
        decimal(n) == decimal(n / 1000) + three_digits(n % 1000),
{
    let m = n % 1000;
    assert(n / 10 >= 100);
    assert((n / 10) / 10 == n / 100);
    assert((n / 100) / 10 == n / 1000);
    assert(decimal(n) == decimal(n / 10).push(digit_char(n % 10)));
    assert(decimal(n / 10) == decimal(n / 100).push(digit_char((n / 10) % 10)));
    assert(decimal(n / 100) == decimal(n / 1000).push(digit_char((n / 100) % 10)));
    assert(m / 100 == (n / 100) % 10);
    assert((m / 10) % 10 == (n / 10) % 10);
    assert(m % 10 == n % 10);
    assert(decimal(n) =~= decimal(n / 1000) + three_digits(m));
}

/// Grouping only adds spaces: without them, a grouped count reads as the
/// plain decimal form of the number.
pub proof fn law_grouped_digits(n: nat)
    ensures
        without_spaces(grouped(n)) == decimal(n),
    decreases n,
{
    if n < 1000 {
        lemma_decimal_no_spaces(n);
    } else {
        law_grouped_digits(n / 1000);
        let g = grouped(n / 1000);
        let t = three_digits(n % 1000);
        lemma_without_spaces_concat(g + seq![' '], t);
        lemma_without_spaces_concat(g, seq![' ']);
        assert(seq![' '].drop_last() =~= Seq::<char>::empty());
        assert(without_spaces(seq![' ']) =~= Seq::<char>::empty()) by {
            reveal_with_fuel(without_spaces, 2);
        }
        lemma_decimal_split(n);
        assert(without_spaces(g + seq![' ']) =~= decimal(n / 1000));
        assert(without_spaces(t) =~= t) by {
            lemma_digit_not_space((n % 1000) / 100);
            lemma_digit_not_space(((n % 1000) / 10) % 10);
            lemma_digit_not_space((n % 1000) % 10);
            reveal_with_fuel(without_spaces, 4);
            assert(t.drop_last().drop_last().drop_last() =~= Seq::<char>::empty());
        }
    }
}

// ----------------------------------------------------------------------
// the continue prompt
// ----------------------------------------------------------------------

/// What an answer to "continue?" asks for.
#[derive(Copy, Clone, Debug, PartialEq, Eq, Structural)]
pub enum Reply {
    /// `y`, or just Enter.
    Continue,
    /// `n`: the run stops.
    Stop,
    /// Anything else: the question is asked again.
    Again,
}

pub open spec fn reply_of(answer: Seq<char>) -> Reply {
    let a = unicode_lowercase(trim_ws(answer));
    if a == "y"@ || a.len() == 0 {
        Reply::Continue
    } else if a == "n"@ {
        Reply::Stop
    } else {
        Reply::Again
    }
}

/// Reads an answer: surrounding white space is ignored and letter case
/// does not matter.
pub fn read_reply(input: &str) -> (r: Reply)
    ensures
        r == reply_of(input@),
{
    let t = trim(input);
    let a = to_lowercase(t.as_str());
    let cs = chars_of(a.as_str());
    if cs.len() == 0 {
        return Reply::Continue;
    }
    if cs.len() == 1 && cs[0] == 'y' {
        assert(a@ =~= "y"@) by {
            reveal_strlit("y");
        }
        return Reply::Continue;
    }
    if cs.len() == 1 && cs[0] == 'n' {
        assert(a@ =~= "n"@) by {
            reveal_strlit("n");
        }
        assert(a@ != "y"@) by {
            reveal_strlit("y");
        }
        return Reply::Stop;
    }
    assert(a@ != "y"@ && a@ != "n"@) by {
        reveal_strlit("y");
        reveal_strlit("n");
        if a@ == "y"@ {
            assert(a@[0] == 'y');
        }
        if a@ == "n"@ {
            assert(a@[0] == 'n');
        }
    }
    Reply::Again
}

} // verus!
