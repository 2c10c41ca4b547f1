//! Column type inference for Parquet output.

use vstd::prelude::*;
use crate::text::{chars_of, ci_eq, str_ci_eq, decimal, push_decimal, signed_decimal, ascii_lower_chars};
use vstd::string::{StrSliceExecFns, StringExecFns};

verus! {

/// Inferred logical type for a Parquet column.
#[derive(Copy, Clone, Debug, PartialEq, Eq, Structural)]
pub enum ColType {
    Int,
    Float,
    Bool,
    Text,
}

// ----------------------------------------------------------------------
// number grammars
// ----------------------------------------------------------------------

pub open spec fn is_digit(c: char) -> bool {
    '0' <= c && c <= '9'
}

pub open spec fn all_digits(s: Seq<char>) -> bool {
    forall|i: int| 0 <= i < s.len() ==> is_digit(#[trigger] s[i])
}

/// The value of a run of decimal digits.
pub open spec fn digits_value(s: Seq<char>) -> int
    decreases s.len(),
{
    if s.len() == 0 {
        0
    } else {
        digits_value(s.drop_last()) * 10 + (s.last() as int - 48)
    }
}

/// `s.parse::<i64>()` succeeds: an optional sign, at least one digit, and
/// a value within `i64::MIN ..= i64::MAX`.
pub open spec fn parses_i64(s: Seq<char>) -> bool {
    if s.len() > 0 && (s[0] == '+' || s[0] == '-') {
        let t = s.drop_first();
        &&& t.len() > 0
        &&& all_digits(t)
        &&& digits_value(t) <= (if s[0] == '-' { 0x8000_0000_0000_0000int } else { 0x7fff_ffff_ffff_ffffint })
    } else {
        &&& s.len() > 0
        &&& all_digits(s)
        &&& digits_value(s) <= 0x7fff_ffff_ffff_ffffint
    }
}

/// Index after the run of digits that starts at `i`.
pub open spec fn digit_run(s: Seq<char>, i: int) -> int
    decreases s.len() - i,
{
    if 0 <= i < s.len() && is_digit(s[i]) {
        digit_run(s, i + 1)
    } else {
        i
    }
}

pub open spec fn is_sign(c: char) -> bool {
    c == '+' || c == '-'
}

/// `Exp ::= 'e' Sign? Digit+` running from `k` to the end.
pub open spec fn is_exponent(b: Seq<char>, k: int) -> bool {
    &&& 0 <= k < b.len()
    &&& (b[k] == 'e' || b[k] == 'E')
    &&& {
        let m = if k + 1 < b.len() && is_sign(b[k + 1]) {
            k + 2
        } else {
            k + 1
        };
        let e = digit_run(b, m);
        e > m && e == b.len()
    }
}

/// `Number ::= ( Digit+ | Digit+ '.' Digit* | Digit* '.' Digit+ ) Exp?`
pub open spec fn is_number(b: Seq<char>) -> bool {
    let i = digit_run(b, 0);
    let has_dot = i < b.len() && b[i] == '.';
    let k = if has_dot {
        digit_run(b, i + 1)
    } else {
        i
    };
    let mantissa = i > 0 || (has_dot && k > i + 1);
    mantissa && (k == b.len() || is_exponent(b, k))
}

/// `s.parse::<f64>()` succeeds: `Sign? ( 'inf' | 'infinity' | 'nan' |
/// Number )`, the words in any case.
pub open spec fn parses_f64(s: Seq<char>) -> bool {
    let b = if s.len() > 0 && is_sign(s[0]) {
        s.drop_first()
    } else {
        s
    };
    ci_eq(b, "inf"@) || ci_eq(b, "infinity"@) || ci_eq(b, "nan"@) || is_number(b)
}

/// `s.to_ascii_lowercase()` is `"true"` or `"false"`.
pub open spec fn bool_of(s: Seq<char>) -> Option<bool> {
    if ci_eq(s, "true"@) {
        Some(true)
    } else if ci_eq(s, "false"@) {
        Some(false)
    } else {
        None
    }
}

proof fn lemma_digit_run(s: Seq<char>, i: int)
    requires
        0 <= i <= s.len(),
    ensures
        i <= digit_run(s, i) <= s.len(),
        forall|j: int| i <= j < digit_run(s, i) ==> is_digit(#[trigger] s[j]),
        digit_run(s, i) < s.len() ==> !is_digit(s[digit_run(s, i)]),
    decreases s.len() - i,
{
    if i < s.len() && is_digit(s[i]) {
        lemma_digit_run(s, i + 1);
    }
}

fn digit_char(c: char) -> (r: bool)
    ensures
        r == is_digit(c),
{
    '0' <= c && c <= '9'
}

fn run_end(s: &Vec<char>, i: usize) -> (r: usize)
    requires
        i <= s.len(),
    ensures
        r == digit_run(s@, i as int),
{
    let mut k = i;
    while k < s.len() && digit_char(s[k])
        invariant
            i <= k <= s.len(),
            digit_run(s@, k as int) == digit_run(s@, i as int),
        decreases s.len() - k,
    {
        k += 1;
    }
    k
}

/// `min(digits_value(t), cap)` for a run of digits.
proof fn lemma_capped_step(x: int, d: int, cap: int)
    requires
        0 <= x,
        0 <= d <= 9,
        0 < cap,
    ensures
        (if x < cap { x } else { cap }) * 10 + d >= cap ==> x * 10 + d >= cap,
        x * 10 + d >= cap ==> (if x < cap { x } else { cap }) * 10 + d >= cap,
        (if x < cap { x } else { cap }) * 10 + d < cap ==> (if x < cap { x } else { cap }) * 10 + d == x * 10 + d,
{
}

proof fn lemma_digits_nonneg(s: Seq<char>)
    requires
        all_digits(s),
    ensures
        digits_value(s) >= 0,
    decreases s.len(),
{
    if s.len() > 0 {
        lemma_digits_nonneg(s.drop_last());
    }
}

/// The value of the digits `s[from..]` (all digits), capped at
/// `limit + 1`.
fn digits_capped(s: &Vec<char>, from: usize, limit: u128) -> (v: u128)
    requires
        from <= s.len(),
        all_digits(s@.subrange(from as int, s@.len() as int)),
        0 < limit < 0x1_0000_0000_0000_0000,
    ensures
        v as int == (if digits_value(s@.subrange(from as int, s@.len() as int)) <= limit {
            digits_value(s@.subrange(from as int, s@.len() as int))
        } else {
            limit + 1
        }),
{
    let cap: u128 = limit + 1;
    let mut v: u128 = 0;
    let mut k = from;
    let ghost t = s@.subrange(from as int, s@.len() as int);
    assert(s@.subrange(from as int, from as int) =~= Seq::<char>::empty());
    while k < s.len()
        invariant
            from <= k <= s.len(),
            cap == limit + 1,
            0 < limit < 0x1_0000_0000_0000_0000,
            t == s@.subrange(from as int, s@.len() as int),
            all_digits(t),
            v as int == (if digits_value(s@.subrange(from as int, k as int)) < cap {
                digits_value(s@.subrange(from as int, k as int))
            } else {
                cap as int
            }),
        decreases s.len() - k,
    {
        let ghost pre = s@.subrange(from as int, k as int);
        let ghost nxt = s@.subrange(from as int, k + 1);
        assert(nxt.drop_last() =~= pre);
        assert(nxt.last() == s@[k as int]);
        assert(s@[k as int] == t[k - from]);
        let d = (s[k] as u32 - 48) as u128;
        proof {
            lemma_digits_nonneg(pre);
            assert(all_digits(pre)) by {
                assert forall|i: int| 0 <= i < pre.len() implies is_digit(#[trigger] pre[i]) by {
                    assert(pre[i] == t[i]);
                }
            }
            lemma_capped_step(digits_value(pre), d as int, cap as int);
        }
        let w = v * 10 + d;
        v = if w < cap { w } else { cap };
        k += 1;
    }
    assert(s@.subrange(from as int, s@.len() as int) == t);
    v
}

/// Whether the digits `s[from..]` (all digits) are worth at most `limit`.
fn digits_at_most(s: &Vec<char>, from: usize, limit: u128) -> (r: bool)
    requires
        from <= s.len(),
        all_digits(s@.subrange(from as int, s@.len() as int)),
        0 < limit < 0x1_0000_0000_0000_0000,
    ensures
        r == (digits_value(s@.subrange(from as int, s@.len() as int)) <= limit),
{
    digits_capped(s, from, limit) <= limit
}

fn all_digit_chars(s: &Vec<char>, from: usize) -> (r: bool)
    requires
        from <= s.len(),
    ensures
        r == all_digits(s@.subrange(from as int, s@.len() as int)),
{
    let mut k = from;
    while k < s.len()
        invariant
            from <= k <= s.len(),
            forall|j: int| from <= j < k ==> is_digit(#[trigger] s@[j]),
        decreases s.len() - k,
    {
        if !digit_char(s[k]) {
            assert(s@.subrange(from as int, s@.len() as int)[k - from] == s@[k as int]);
            return false;
        }
        k += 1;
    }
    assert forall|i: int| 0 <= i < s@.len() - from implies is_digit(
        #[trigger] s@.subrange(from as int, s@.len() as int)[i],
    ) by {
        assert(s@.subrange(from as int, s@.len() as int)[i] == s@[from + i]);
    }
    true
}

/// Whether `s.parse::<i64>()` succeeds.
pub fn is_int(s: &str) -> (r: bool)
    ensures
        r == parses_i64(s@),
{
    let cs = chars_of(s);
    if cs.len() > 0 && (cs[0] == '+' || cs[0] == '-') {
        assert(cs@.drop_first() =~= cs@.subrange(1, cs@.len() as int));
        if cs.len() == 1 || !all_digit_chars(&cs, 1) {
            return false;
        }
        let limit: u128 = if cs[0] == '-' {
            0x8000_0000_0000_0000
        } else {
            0x7fff_ffff_ffff_ffff
        };
        digits_at_most(&cs, 1, limit)
    } else {
        assert(cs@.subrange(0, cs@.len() as int) =~= cs@);
        if cs.len() == 0 || !all_digit_chars(&cs, 0) {
            return false;
        }
        digits_at_most(&cs, 0, 0x7fff_ffff_ffff_ffff)
    }
}

proof fn lemma_digit_run_all(b: Seq<char>, i: int)
    requires
        0 <= i <= b.len(),
        forall|k: int| i <= k < b.len() ==> is_digit(#[trigger] b[k]),
    ensures
        digit_run(b, i) == b.len(),
    decreases b.len() - i,
{
    if i < b.len() {
        lemma_digit_run_all(b, i + 1);
    }
}

/// Every text that parses as an integer also parses as a float, so a
/// column of integers could always be read as floats; inference prefers
/// the integer type.
pub proof fn law_integers_are_floats(s: Seq<char>)
    requires
        parses_i64(s),
    ensures
        parses_f64(s),
{
    let b = if s.len() > 0 && is_sign(s[0]) { s.drop_first() } else { s };
    assert(all_digits(b));
    lemma_digit_run_all(b, 0);
    assert(is_number(b));
}

/// A cell reads as a boolean exactly when it spells `true` or `false` in
/// any ASCII case.
pub proof fn law_bool_words(s: Seq<char>)
    ensures
        bool_of(s) == (if ascii_lower_chars(s) == "true"@ {
            Some(true)
        } else if ascii_lower_chars(s) == "false"@ {
            Some(false)
        } else {
            None
        }),
{
    reveal_strlit("true");
    reveal_strlit("false");
    assert(ascii_lower_chars("true"@) =~= "true"@);
    assert(ascii_lower_chars("false"@) =~= "false"@);
    crate::text::lemma_ci_eq_is_lower_eq(s, "true"@);
    crate::text::lemma_ci_eq_is_lower_eq(s, "false"@);
}

/// The value `s.parse::<i64>()` gives when it succeeds.
pub open spec fn i64_value(s: Seq<char>) -> int {
    if s.len() > 0 && s[0] == '-' {
        -digits_value(s.drop_first())
    } else if s.len() > 0 && s[0] == '+' {
        digits_value(s.drop_first())
    } else {
        digits_value(s)
    }
}

proof fn lemma_decimal_digits(m: nat)
    ensures
        decimal(m).len() > 0,
        all_digits(decimal(m)),
        digits_value(decimal(m)) == m,
        is_digit(decimal(m)[0]),
    decreases m,
{
    assert(crate::text::digit_char(m % 10) as u32 == m % 10 + 48);
    let c = crate::text::digit_char(m % 10);
    assert(c as int == m % 10 + 48);
    if m < 10 {
        let s = decimal(m);
        assert(s.drop_last() =~= Seq::<char>::empty());
        assert(digits_value(Seq::<char>::empty()) == 0);
        assert(s.last() == c);
        assert(digits_value(s) == digits_value(s.drop_last()) * 10 + (s.last() as int - 48));
    } else {
        lemma_decimal_digits(m / 10);
        let s = decimal(m);
        assert(s.drop_last() =~= decimal(m / 10));
        assert(s.last() == c);
        assert(s[0] == decimal(m / 10)[0]);
        assert(digits_value(s) == digits_value(s.drop_last()) * 10 + (s.last() as int - 48));
    }
}

/// Every `i64`, written in decimal as `to_string` writes it, parses back as
/// an integer, to the same value.
pub proof fn law_int_text_round_trip(n: i64)
    ensures
        parses_i64(signed_decimal(n as int)),
        i64_value(signed_decimal(n as int)) == n,
{
    if n < 0 {
        let m = (-(n as int)) as nat;
        lemma_decimal_digits(m);
        let s = signed_decimal(n as int);
        assert(s.drop_first() =~= decimal(m));
    } else {
        lemma_decimal_digits(n as nat);
    }
}

/// `s.parse::<i64>().ok()`.
pub fn parse_int(s: &str) -> (r: Option<i64>)
    ensures
        r is Some <==> parses_i64(s@),
        r matches Some(v) ==> v == i64_value(s@),
{
    let cs = chars_of(s);
    if cs.len() > 0 && (cs[0] == '+' || cs[0] == '-') {
        assert(cs@.drop_first() =~= cs@.subrange(1, cs@.len() as int));
        if cs.len() == 1 || !all_digit_chars(&cs, 1) {
            return None;
        }
        let negative = cs[0] == '-';
        let limit: u128 = if negative {
            0x8000_0000_0000_0000
        } else {
            0x7fff_ffff_ffff_ffff
        };
        let v = digits_capped(&cs, 1, limit);
        if v > limit {
            return None;
        }
        if negative {
            if v == 0x8000_0000_0000_0000 {
                Some(i64::MIN)
            } else {
                let m = v as i64;
                Some(-m)
            }
        } else {
            Some(v as i64)
        }
    } else {
        assert(cs@.subrange(0, cs@.len() as int) =~= cs@);
        if cs.len() == 0 || !all_digit_chars(&cs, 0) {
            return None;
        }
        let v = digits_capped(&cs, 0, 0x7fff_ffff_ffff_ffff);
        if v > 0x7fff_ffff_ffff_ffff {
            return None;
        }
        Some(v as i64)
    }
}

/// The integer a Parquet cell holds: nothing for a missing or empty cell
/// or one that does not parse as `i64`.
pub open spec fn int_cell(c: Option<String>) -> Option<i64> {
    match c {
        Some(s) => if s@.len() > 0 && parses_i64(s@) {
            Some(i64_value(s@) as i64)
        } else {
            None
        },
        None => None,
    }
}

/// The boolean a Parquet cell holds: nothing for a missing or empty cell
/// or one that is not `true`/`false`.
pub open spec fn bool_cell(c: Option<String>) -> Option<bool> {
    match c {
        Some(s) => if s@.len() > 0 { bool_of(s@) } else { None },
        None => None,
    }
}

/// The cells of an integer column.
pub fn int_cells(values: &Vec<Option<String>>) -> (r: Vec<Option<i64>>)
    ensures
        r.len() == values.len(),
        forall|i: int| 0 <= i < values.len() ==> #[trigger] r@[i] == int_cell(values@[i]),
{
    let mut out: Vec<Option<i64>> = Vec::new();
    let mut i: usize = 0;
    while i < values.len()
        invariant
            i <= values.len(),
            out.len() == i,
            forall|j: int| 0 <= j < i ==> #[trigger] out@[j] == int_cell(values@[j]),
        decreases values.len() - i,
    {
        let c = match &values[i] {
            Some(s) => if s.as_str().unicode_len() > 0 {
                parse_int(s.as_str())
            } else {
                None
            },
            None => None,
        };
        out.push(c);
        i += 1;
    }
    out
}

/// The cells of a boolean column.
pub fn bool_cells(values: &Vec<Option<String>>) -> (r: Vec<Option<bool>>)
    ensures
        r.len() == values.len(),
        forall|i: int| 0 <= i < values.len() ==> #[trigger] r@[i] == bool_cell(values@[i]),
{
    let mut out: Vec<Option<bool>> = Vec::new();
    let mut i: usize = 0;
    while i < values.len()
        invariant
            i <= values.len(),
            out.len() == i,
            forall|j: int| 0 <= j < i ==> #[trigger] out@[j] == bool_cell(values@[j]),
        decreases values.len() - i,
    {
        let c = match &values[i] {
            Some(s) => if s.as_str().unicode_len() > 0 {
                as_bool(s.as_str())
            } else {
                None
            },
            None => None,
        };
        out.push(c);
        i += 1;
    }
    out
}

fn is_exponent_at(b: &Vec<char>, k: usize) -> (r: bool)
    requires
        k <= b.len(),
    ensures
        r == is_exponent(b@, k as int),
{
    if k >= b.len() || !(b[k] == 'e' || b[k] == 'E') {
        return false;
    }
    let m = if k + 1 < b.len() && (b[k + 1] == '+' || b[k + 1] == '-') {
        k + 2
    } else {
        k + 1
    };
    let e = run_end(b, m);
    e > m && e == b.len()
}

fn is_number_chars(b: &Vec<char>) -> (r: bool)
    ensures
        r == is_number(b@),
{
    let i = run_end(b, 0);
    proof {
        lemma_digit_run(b@, 0);
    }
    let has_dot = i < b.len() && b[i] == '.';
    let k = if has_dot {
        proof {
            lemma_digit_run(b@, i + 1);
        }
        run_end(b, i + 1)
    } else {
        i
    };
    let mantissa = i > 0 || (has_dot && k > i + 1);
    mantissa && (k == b.len() || is_exponent_at(b, k))
}

/// Whether `s.parse::<f64>()` succeeds (the grammar of `f64::from_str`).
pub fn is_float(s: &str) -> (r: bool)
    ensures
        r == parses_f64(s@),
{
    let cs = chars_of(s);
    let b: Vec<char> = if cs.len() > 0 && (cs[0] == '+' || cs[0] == '-') {
        let mut t: Vec<char> = Vec::new();
        let mut i: usize = 1;
        while i < cs.len()
            invariant
                1 <= i <= cs.len(),
                t@ == cs@.subrange(1, i as int),
            decreases cs.len() - i,
        {
            t.push(cs[i]);
            i += 1;
            assert(t@ =~= cs@.subrange(1, i as int));
        }
        assert(t@ =~= cs@.drop_first());
        t
    } else {
        cs
    };
    let word = crate::text::string_of(b.as_slice());
    str_ci_eq(word.as_str(), "inf") || str_ci_eq(word.as_str(), "infinity") || str_ci_eq(word.as_str(), "nan")
        || is_number_chars(&b)
}

/// `"true"` or `"false"` in any ASCII case.
pub fn as_bool(s: &str) -> (r: Option<bool>)
    ensures
        r == bool_of(s@),
{
    if str_ci_eq(s, "true") {
        Some(true)
    } else if str_ci_eq(s, "false") {
        Some(false)
    } else {
        None
    }
}

// ----------------------------------------------------------------------
// inference
// ----------------------------------------------------------------------

/// Some sample row has a non-empty cell in column `col`.
pub open spec fn col_seen(rows: Seq<Seq<Seq<char>>>, col: int) -> bool {
    exists|i: int| 0 <= i < rows.len() && col < rows[i].len() && #[trigger] rows[i][col].len() > 0
}

pub open spec fn col_all_bool(rows: Seq<Seq<Seq<char>>>, col: int) -> bool {
    forall|i: int| 0 <= i < rows.len() && col < rows[i].len() && rows[i][col].len() > 0 ==> #[trigger] bool_of(rows[i][col]) is Some
}

pub open spec fn col_all_int(rows: Seq<Seq<Seq<char>>>, col: int) -> bool {
    forall|i: int| 0 <= i < rows.len() && col < rows[i].len() && rows[i][col].len() > 0 ==> #[trigger] parses_i64(rows[i][col])
}

pub open spec fn col_all_float(rows: Seq<Seq<Seq<char>>>, col: int) -> bool {
    forall|i: int| 0 <= i < rows.len() && col < rows[i].len() && rows[i][col].len() > 0 ==> #[trigger] parses_f64(rows[i][col])
}

/// The type of column `col`: text when no sample row has a non-empty
/// cell there; otherwise bool, int or float when every non-empty cell
/// parses as one (in that order of preference); text otherwise.
pub open spec fn infer_col(rows: Seq<Seq<Seq<char>>>, col: int) -> ColType {
    if !col_seen(rows, col) {
        ColType::Text
    } else if col_all_bool(rows, col) {
        ColType::Bool
    } else if col_all_int(rows, col) {
        ColType::Int
    } else if col_all_float(rows, col) {
        ColType::Float
    } else {
        ColType::Text
    }
}

/// A row whose cells are all empty.
pub open spec fn blank_row(r: Seq<Seq<char>>) -> bool {
    forall|k: int| 0 <= k < r.len() ==> (#[trigger] r[k]).len() == 0
}

/// Every row of `b` is a row of `a` or a blank row.
pub open spec fn covered_by(a: Seq<Seq<Seq<char>>>, b: Seq<Seq<Seq<char>>>) -> bool {
    forall|j: int| 0 <= j < b.len() ==> a.contains(#[trigger] b[j]) || blank_row(b[j])
}

proof fn lemma_covered(a: Seq<Seq<Seq<char>>>, b: Seq<Seq<Seq<char>>>, col: int)
    requires
        covered_by(a, b),
        0 <= col,
    ensures
        col_seen(b, col) ==> col_seen(a, col),
        col_all_bool(a, col) ==> col_all_bool(b, col),
        col_all_int(a, col) ==> col_all_int(b, col),
        col_all_float(a, col) ==> col_all_float(b, col),
{
    if col_seen(b, col) {
        let j = choose|j: int| 0 <= j < b.len() && col < b[j].len() && #[trigger] b[j][col].len() > 0;
        assert(a.contains(b[j]) || blank_row(b[j]));
        if !a.contains(b[j]) {
            assert(b[j][col].len() == 0);
        }
        let i = choose|i: int| 0 <= i < a.len() && a[i] == b[j];
        assert(a[i][col].len() > 0);
    }
    assert forall|j: int| 0 <= j < b.len() && col < b[j].len() && b[j][col].len() > 0 implies (col_all_bool(a, col)
        ==> #[trigger] bool_of(b[j][col]) is Some) && (col_all_int(a, col) ==> parses_i64(b[j][col])) && (
    col_all_float(a, col) ==> parses_f64(b[j][col])) by {
        assert(a.contains(b[j]) || blank_row(b[j]));
        if !a.contains(b[j]) {
            assert(b[j][col].len() == 0);
        }
        let i = choose|i: int| 0 <= i < a.len() && a[i] == b[j];
        assert(a[i][col] == b[j][col]);
    }
}

/// The inferred types depend only on which rows the sample holds: samples
/// with the same rows (in any order, any number of times) get the same
/// types.
pub proof fn law_infer_ignores_order(a: Seq<Seq<Seq<char>>>, b: Seq<Seq<Seq<char>>>, col: int)
    requires
        0 <= col,
        forall|r: Seq<Seq<char>>| a.contains(r) <==> b.contains(r),
    ensures
        infer_col(a, col) == infer_col(b, col),
{
    assert forall|j: int| 0 <= j < b.len() implies a.contains(#[trigger] b[j]) || blank_row(b[j]) by {
        assert(b.contains(b[j]));
    }
    assert forall|j: int| 0 <= j < a.len() implies b.contains(#[trigger] a[j]) || blank_row(a[j]) by {
        assert(a.contains(a[j]));
    }
    lemma_covered(a, b, col);
    lemma_covered(b, a, col);
}

/// Rows whose cells are all empty never change the inferred types.
pub proof fn law_infer_ignores_blank_rows(a: Seq<Seq<Seq<char>>>, e: Seq<Seq<Seq<char>>>, col: int)
    requires
        0 <= col,
        forall|j: int| 0 <= j < e.len() ==> blank_row(#[trigger] e[j]),
    ensures
        infer_col(a + e, col) == infer_col(a, col),
{
    let b = a + e;
    assert forall|j: int| 0 <= j < b.len() implies a.contains(#[trigger] b[j]) || blank_row(b[j]) by {
        if j < a.len() {
            assert(b[j] == a[j]);
        } else {
            assert(b[j] == e[j - a.len()]);
        }
    }
    assert forall|j: int| 0 <= j < a.len() implies b.contains(#[trigger] a[j]) || blank_row(a[j]) by {
        assert(b[j] == a[j]);
    }
    lemma_covered(a, b, col);
    lemma_covered(b, a, col);
}

fn infer_column(sample: &Vec<Vec<String>>, col: usize) -> (t: ColType)
    ensures
        t == infer_col(sample.deep_view(), col as int),
{
    let ghost rows = sample.deep_view();
    let mut seen = false;
    let mut all_int = true;
    let mut all_float = true;
    let mut all_bool = true;
    let mut r: usize = 0;
    while r < sample.len()
        invariant
            r <= sample.len(),
            rows == sample.deep_view(),
            seen == exists|i: int| 0 <= i < r && col < rows[i].len() && #[trigger] rows[i][col as int].len() > 0,
            all_bool == forall|i: int| 0 <= i < r && col < rows[i].len() && rows[i][col as int].len() > 0 ==> #[trigger] bool_of(rows[i][col as int]) is Some,
            all_int == forall|i: int| 0 <= i < r && col < rows[i].len() && rows[i][col as int].len() > 0 ==> #[trigger] parses_i64(rows[i][col as int]),
            all_float == forall|i: int| 0 <= i < r && col < rows[i].len() && rows[i][col as int].len() > 0 ==> #[trigger] parses_f64(rows[i][col as int]),
        decreases sample.len() - r,
    {
        let row = &sample[r];
        assert(rows[r as int] == row.deep_view());
        if col < row.len() {
            let cell = &row[col];
            assert(rows[r as int][col as int] == cell@);
            let n = cell.as_str().is_empty();
            if !n {
                seen = true;
                if !is_int(cell.as_str()) {
                    all_int = false;
                }
                if !is_float(cell.as_str()) {
                    all_float = false;
                }
                if as_bool(cell.as_str()).is_none() {
                    all_bool = false;
                }
            }
        }
        r += 1;
    }
    if !seen {
        ColType::Text
    } else if all_bool {
        ColType::Bool
    } else if all_int {
        ColType::Int
    } else if all_float {
        ColType::Float
    } else {
        ColType::Text
    }
}

/// Infers a type per column from a sample; empty cells count as null.
pub fn infer_types(sample: &Vec<Vec<String>>, col_count: usize) -> (types: Vec<ColType>)
    ensures
        types@.len() == col_count,
        forall|c: int| 0 <= c < col_count ==> #[trigger] types@[c] == infer_col(sample.deep_view(), c),
{
    let mut types: Vec<ColType> = Vec::new();
    let mut c: usize = 0;
    while c < col_count
        invariant
            c <= col_count,
            types@.len() == c,
            forall|j: int| 0 <= j < c ==> #[trigger] types@[j] == infer_col(sample.deep_view(), j),
        decreases col_count - c,
    {
        types.push(infer_column(sample, c));
        c += 1;
    }
    types
}

/// How many of the types are `t`.
pub open spec fn count_type(types: Seq<ColType>, t: ColType) -> nat
    decreases types.len(),
{
    if types.len() == 0 {
        0
    } else {
        count_type(types.drop_last(), t) + if types.last() == t {
            1nat
        } else {
            0nat
        }
    }
}

/// `"{int} int, {float} float, {bool} bool, {text} text"`.
pub open spec fn type_summary(types: Seq<ColType>) -> Seq<char> {
    decimal(count_type(types, ColType::Int)) + " int, "@ + decimal(count_type(types, ColType::Float))
        + " float, "@ + decimal(count_type(types, ColType::Bool)) + " bool, "@ + decimal(
        count_type(types, ColType::Text),
    ) + " text"@
}

proof fn lemma_count_bound(types: Seq<ColType>, t: ColType)
    ensures
        count_type(types, t) <= types.len(),
    decreases types.len(),
{
    if types.len() > 0 {
        lemma_count_bound(types.drop_last(), t);
    }
}

/// A one-line summary of the inferred types.
pub fn describe_types(types: &Vec<ColType>) -> (s: String)
    ensures
        s@ == type_summary(types@),
{
    let mut n_int: u64 = 0;
    let mut n_float: u64 = 0;
    let mut n_bool: u64 = 0;
    let mut n_text: u64 = 0;
    let mut i: usize = 0;
    while i < types.len()
        invariant
            i <= types.len(),
            n_int == count_type(types@.take(i as int), ColType::Int),
            n_float == count_type(types@.take(i as int), ColType::Float),
            n_bool == count_type(types@.take(i as int), ColType::Bool),
            n_text == count_type(types@.take(i as int), ColType::Text),
        decreases types.len() - i,
    {
        proof {
            assert(types@.take(i + 1).drop_last() =~= types@.take(i as int));
            lemma_count_bound(types@.take(i as int), ColType::Int);
            lemma_count_bound(types@.take(i as int), ColType::Float);
            lemma_count_bound(types@.take(i as int), ColType::Bool);
            lemma_count_bound(types@.take(i as int), ColType::Text);
        }
        match types[i] {
            ColType::Int => n_int += 1,
            ColType::Float => n_float += 1,
            ColType::Bool => n_bool += 1,
            ColType::Text => n_text += 1,
        }
        i += 1;
    }
    assert(types@.take(types.len() as int) =~= types@);
    let mut s = String::new();
    push_decimal(&mut s, n_int);
    s.append(" int, ");
    push_decimal(&mut s, n_float);
    s.append(" float, ");
    push_decimal(&mut s, n_bool);
    s.append(" bool, ");
    push_decimal(&mut s, n_text);
    s.append(" text");
    s
}

/// Why a Parquet file cannot be planned.
#[derive(Copy, Clone, Debug, PartialEq, Eq, Structural)]
pub enum PlanError {
    /// The input has no columns.
    NoColumns,
}

/// The column types of a Parquet output: refused for an input without
/// columns; else the types inferred from the sample when inference is on,
/// text everywhere otherwise.
pub fn parquet_plan(col_count: usize, infer: bool, sample: &Vec<Vec<String>>) -> (r: Result<Vec<ColType>, PlanError>)
    ensures
        col_count == 0 ==> r == Err::<Vec<ColType>, PlanError>(PlanError::NoColumns),
        col_count > 0 ==> (r matches Ok(types) && types@.len() == col_count && forall|c: int|
            0 <= c < col_count ==> #[trigger] types@[c] == (if infer {
                infer_col(sample.deep_view(), c)
            } else {
                ColType::Text
            })),
{
    if col_count == 0 {
        return Err(PlanError::NoColumns);
    }
    if infer {
        return Ok(infer_types(sample, col_count));
    }
    let mut types: Vec<ColType> = Vec::new();
    let mut i: usize = 0;
    while i < col_count
        invariant
            i <= col_count,
            types@.len() == i,
            forall|c: int| 0 <= c < i ==> #[trigger] types@[c] == ColType::Text,
        decreases col_count - i,
    {
        types.push(ColType::Text);
        i += 1;
    }
    Ok(types)
}

} // verus!
