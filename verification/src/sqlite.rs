//! SQL text for the SQLite target and source: column naming, identifier
//! quoting, the FTS5 table, multi-row INSERT statements and their bound
//! values, and the batch size that keeps them within SQLite's limit.

use vstd::prelude::*;
use vstd::string::StringExecFns;
use crate::config::{SQLITE_MAX_PARAMS, SQLITE_CACHE_KIB};
use crate::text::{
    chars_of, string_of, push_char, push_decimal, decimal, trim, trim_ws, synthetic_name,
    synthetic_column, join, char_is_alphanumeric, is_alphanumeric,
};

verus! {

// ----------------------------------------------------------------------
// column names
// ----------------------------------------------------------------------

/// The base name of header `i`: the trimmed header, or `c{i}` when blank.
pub open spec fn base_name(h: Seq<char>, i: nat) -> Seq<char> {
    let t = trim_ws(h);
    if t.len() == 0 {
        synthetic_name(i)
    } else {
        t
    }
}

pub open spec fn base_names(headers: Seq<Seq<char>>) -> Seq<Seq<char>> {
    Seq::new(headers.len(), |i: int| base_name(headers[i], i as nat))
}

/// How many of `names` equal `b`.
pub open spec fn count_eq(names: Seq<Seq<char>>, b: Seq<char>) -> nat
    decreases names.len(),
{
    if names.len() == 0 {
        0
    } else {
        count_eq(names.drop_last(), b) + if names.last() == b {
            1nat
        } else {
            0nat
        }
    }
}

/// Column `i`'s name: its base name, followed by `_k` when `k > 0` earlier
/// headers have the same base name.
pub open spec fn unique_name(headers: Seq<Seq<char>>, i: int) -> Seq<char> {
    let bases = base_names(headers);
    let k = count_eq(bases.take(i), bases[i]);
    if k == 0 {
        bases[i]
    } else {
        bases[i] + seq!['_'] + decimal(k)
    }
}

proof fn lemma_count_eq_bound(names: Seq<Seq<char>>, b: Seq<char>)
    ensures
        count_eq(names, b) <= names.len(),
    decreases names.len(),
{
    if names.len() > 0 {
        lemma_count_eq_bound(names.drop_last(), b);
    }
}

proof fn lemma_count_eq_absent(names: Seq<Seq<char>>, b: Seq<char>)
    requires
        forall|k: int| 0 <= k < names.len() ==> names[k] != b,
    ensures
        count_eq(names, b) == 0,
    decreases names.len(),
{
    if names.len() > 0 {
        lemma_count_eq_absent(names.drop_last(), b);
    }
}

/// Headers whose base names (trimmed, blanks named `c{i}`) are all
/// different keep those names: numbering only touches repeats.
pub proof fn law_distinct_headers_keep_names(headers: Seq<Seq<char>>)
    requires
        forall|a: int, b: int| 0 <= a < b < headers.len() ==> base_names(headers)[a] != base_names(headers)[b],
    ensures
        forall|i: int| 0 <= i < headers.len() ==> #[trigger] unique_name(headers, i) == base_names(headers)[i],
{
    assert forall|i: int| 0 <= i < headers.len() implies #[trigger] unique_name(headers, i) == base_names(headers)[i] by {
        let bases = base_names(headers);
        lemma_count_eq_absent(bases.take(i), bases[i]);
    }
}

/// A repeated header is numbered: two headers with the same (non-blank,
/// trimmed) text become that text and that text followed by `_1`.
pub proof fn law_repeated_header_is_numbered(a: Seq<char>, b: Seq<char>)
    requires
        trim_ws(a) == trim_ws(b),
        trim_ws(a).len() > 0,
    ensures
        unique_name(seq![a, b], 0) == trim_ws(a),
        unique_name(seq![a, b], 1) == trim_ws(a) + seq!['_', '1'],
{
    let h = seq![a, b];
    let bases = base_names(h);
    assert(bases[0] == trim_ws(a));
    assert(bases[1] == trim_ws(a));
    assert(bases.take(0) =~= Seq::<Seq<char>>::empty());
    assert(bases.take(1) =~= seq![trim_ws(a)]);
    assert(seq![trim_ws(a)].drop_last() =~= Seq::<Seq<char>>::empty());
    assert(count_eq(seq![trim_ws(a)], trim_ws(a)) == 1) by {
        reveal_with_fuel(count_eq, 2);
    }
    assert(decimal(1) == seq!['1']);
}

fn count_same(names: &Vec<String>, b: &String) -> (k: u64)
    ensures
        k == count_eq(names.deep_view(), b@),
{
    let mut k: u64 = 0;
    let mut i: usize = 0;
    proof {
        lemma_count_eq_bound(names.deep_view(), b@);
    }
    while i < names.len()
        invariant
            i <= names.len(),
            k == count_eq(names.deep_view().take(i as int), b@),
            count_eq(names.deep_view(), b@) <= names.len(),
        decreases names.len() - i,
    {
        proof {
            assert(names.deep_view().take(i + 1).drop_last() =~= names.deep_view().take(i as int));
            lemma_count_eq_bound(names.deep_view().take(i as int), b@);
        }
        if names[i] == *b {
            k += 1;
        }
        i += 1;
    }
    assert(names.deep_view().take(names.len() as int) =~= names.deep_view());
    k
}

/// Column names made unique: blank headers become `c{i}`, and the `k`-th
/// repeat of a name gets the suffix `_k`.
pub fn unique_column_names(headers: &Vec<String>) -> (names: Vec<String>)
    ensures
        names@.len() == headers@.len(),
        forall|i: int| 0 <= i < headers@.len() ==> (#[trigger] names@[i])@ == unique_name(headers.deep_view(), i),
{
    let ghost hv = headers.deep_view();
    let mut bases: Vec<String> = Vec::new();
    let mut names: Vec<String> = Vec::new();
    let mut i: usize = 0;
    while i < headers.len()
        invariant
            i <= headers.len(),
            hv == headers.deep_view(),
            bases.deep_view() == base_names(hv).take(i as int),
            names@.len() == i,
            forall|j: int| 0 <= j < i ==> (#[trigger] names@[j])@ == unique_name(hv, j),
        decreases headers.len() - i,
    {
        let t = trim(headers[i].as_str());
        let base = if t.as_str().is_empty() {
            synthetic_column(i)
        } else {
            t
        };
        assert(base@ == base_names(hv)[i as int]);
        let k = count_same(&bases, &base);
        assert(base_names(hv).take(i as int) == bases.deep_view());
        let mut name = base.clone();
        if k > 0 {
            push_char(&mut name, '_');
            push_decimal(&mut name, k);
        }
        assert(name@ == unique_name(hv, i as int));
        names.push(name);
        let ghost before = bases.deep_view();
        bases.push(base);
        assert(bases.deep_view() =~= before.push(base_names(hv)[i as int]));
        assert(base_names(hv).take(i + 1) =~= base_names(hv).take(i as int).push(base_names(hv)[i as int]));
        i += 1;
    }
    names
}

// ----------------------------------------------------------------------
// identifiers
// ----------------------------------------------------------------------

/// Only the alphanumeric characters and `_` of a name.
pub open spec fn sanitized(s: Seq<char>) -> Seq<char> {
    s.filter(|c: char| is_alphanumeric(c) || c == '_')
}

/// A sanitized identifier holds exactly the characters of the name that are
/// alphanumeric or `_`: nothing else, and every such character of the name.
pub proof fn law_sanitized_keeps_word_characters(name: Seq<char>)
    ensures
        forall|i: int| 0 <= i < sanitized(name).len() ==> {
            let c = #[trigger] sanitized(name)[i];
            is_alphanumeric(c) || c == '_'
        },
        forall|c: char| sanitized(name).contains(c) <==> (name.contains(c) && (is_alphanumeric(c) || c == '_')),
{
    broadcast use vstd::seq_lib::group_filter_ensures;

    let p = |c: char| is_alphanumeric(c) || c == '_';
    assert forall|i: int| 0 <= i < sanitized(name).len() implies {
        let c = #[trigger] sanitized(name)[i];
        is_alphanumeric(c) || c == '_'
    } by {
        name.lemma_filter_pred(p, i);
    }
    assert forall|c: char| sanitized(name).contains(c) <==> (name.contains(c) && (is_alphanumeric(c) || c == '_')) by {
        if sanitized(name).contains(c) {
            name.lemma_filter_contains_rev(p, c);
            let i = choose|i: int| 0 <= i < sanitized(name).len() && sanitized(name)[i] == c;
            name.lemma_filter_pred(p, i);
        }
        if name.contains(c) && (is_alphanumeric(c) || c == '_') {
            let i = choose|i: int| 0 <= i < name.len() && name[i] == c;
            name.lemma_filter_contains(p, i);
        }
    }
}

/// Keeps only alphanumeric characters and `_`.
pub fn sanitize_identifier(name: &str) -> (r: String)
    ensures
        r@ == sanitized(name@),
{
    let cs = chars_of(name);
    let mut out = String::new();
    let mut i: usize = 0;
    while i < cs.len()
        invariant
            i <= cs.len(),
            cs@ == name@,
            out@ == sanitized(name@.take(i as int)),
        decreases cs.len() - i,
    {
        let c = cs[i];
        proof {
            reveal_with_fuel(Seq::filter, 1);
            assert(name@.take(i + 1).drop_last() =~= name@.take(i as int));
        }
        if char_is_alphanumeric(c) || c == '_' {
            push_char(&mut out, c);
        }
        i += 1;
    }
    assert(name@.take(cs.len() as int) =~= name@);
    out
}

/// `name` with each `"` doubled.
pub open spec fn double_quotes(s: Seq<char>) -> Seq<char>
    decreases s.len(),
{
    if s.len() == 0 {
        Seq::empty()
    } else {
        double_quotes(s.drop_last()) + if s.last() == '"' {
            seq!['"', '"']
        } else {
            seq![s.last()]
        }
    }
}

/// `"name"` with inner quotes doubled.
pub open spec fn quoted_ident(s: Seq<char>) -> Seq<char> {
    seq!['"'] + double_quotes(s) + seq!['"']
}

/// How SQL reads the body of a quoted identifier, left to right: a doubled
/// quote stands for one quote, any other character for itself.
pub open spec fn undouble(s: Seq<char>) -> Seq<char>
    decreases s.len(),
{
    if s.len() == 0 {
        Seq::empty()
    } else if s.len() >= 2 && s[0] == '"' && s[1] == '"' {
        seq!['"'] + undouble(s.subrange(2, s.len() as int))
    } else {
        seq![s[0]] + undouble(s.drop_first())
    }
}

/// The name a quoted identifier `"..."` stands for.
pub open spec fn unquote_ident(q: Seq<char>) -> Seq<char> {
    undouble(q.subrange(1, q.len() - 1))
}

proof fn lemma_double_quotes_prepend(c: char, t: Seq<char>)
    ensures
        double_quotes(seq![c] + t) == (if c == '"' { seq!['"', '"'] } else { seq![c] }) + double_quotes(t),
    decreases t.len(),
{
    let head: Seq<char> = if c == '"' { seq!['"', '"'] } else { seq![c] };
    if t.len() == 0 {
        assert(seq![c] + t =~= seq![c]);
        assert(seq![c].drop_last() =~= Seq::<char>::empty());
        assert(double_quotes(Seq::<char>::empty()) =~= Seq::<char>::empty());
        assert(double_quotes(seq![c]) =~= Seq::<char>::empty() + head);
        assert(head + double_quotes(t) =~= head);
    } else {
        lemma_double_quotes_prepend(c, t.drop_last());
        assert((seq![c] + t).drop_last() =~= seq![c] + t.drop_last());
        assert((seq![c] + t).last() == t.last());
        let tail: Seq<char> = if t.last() == '"' { seq!['"', '"'] } else { seq![t.last()] };
        assert(head + double_quotes(t) =~= head + double_quotes(t.drop_last()) + tail);
    }
}

proof fn lemma_undouble_double(s: Seq<char>)
    ensures
        undouble(double_quotes(s)) == s,
    decreases s.len(),
{
    if s.len() > 0 {
        let c = s[0];
        let t = s.drop_first();
        assert(s =~= seq![c] + t);
        lemma_double_quotes_prepend(c, t);
        lemma_undouble_double(t);
        let d = double_quotes(s);
        if c == '"' {
            assert(d.subrange(2, d.len() as int) =~= double_quotes(t));
        } else {
            assert(d.drop_first() =~= double_quotes(t));
        }
        assert(undouble(d) =~= s);
    }
}

/// Quoting is undone by reading: the identifier `quote_identifier` writes
/// for a name, read back by SQL's rules, is that name.
pub proof fn law_quoted_identifier_round_trip(name: Seq<char>)
    ensures
        unquote_ident(quoted_ident(name)) == name,
{
    let q = quoted_ident(name);
    assert(q.subrange(1, q.len() - 1) =~= double_quotes(name));
    lemma_undouble_double(name);
}

/// Quotes an identifier for SQL: `"name"`, inner `"` doubled.
pub fn quote_identifier(name: &str) -> (r: String)
    ensures
        r@ == quoted_ident(name@),
{
    let cs = chars_of(name);
    let mut out = String::new();
    push_char(&mut out, '"');
    let mut i: usize = 0;
    assert(name@.take(0) =~= Seq::<char>::empty());
    while i < cs.len()
        invariant
            i <= cs.len(),
            cs@ == name@,
            out@ == seq!['"'] + double_quotes(name@.take(i as int)),
        decreases cs.len() - i,
    {
        let c = cs[i];
        proof {
            assert(name@.take(i + 1).drop_last() =~= name@.take(i as int));
        }
        push_char(&mut out, c);
        if c == '"' {
            push_char(&mut out, '"');
        }
        i += 1;
        assert(out@ =~= seq!['"'] + double_quotes(name@.take(i as int)));
    }
    push_char(&mut out, '"');
    assert(name@.take(cs.len() as int) =~= name@);
    out
}

/// The quoted identifiers joined by `", "`.
pub open spec fn column_list(cols: Seq<Seq<char>>) -> Seq<char> {
    join(cols.map_values(|c: Seq<char>| quoted_ident(c)), ", "@)
}

/// The quoted column names, comma separated.
pub fn quoted_column_list(cols: &Vec<String>) -> (r: String)
    ensures
        r@ == column_list(cols.deep_view()),
{
    let ghost parts = cols.deep_view().map_values(|c: Seq<char>| quoted_ident(c));
    let mut out = String::new();
    let mut i: usize = 0;
    while i < cols.len()
        invariant
            i <= cols.len(),
            parts == cols.deep_view().map_values(|c: Seq<char>| quoted_ident(c)),
            out@ == join(parts.take(i as int), ", "@),
        decreases cols.len() - i,
    {
        let q = quote_identifier(cols[i].as_str());
        if i > 0 {
            out.append(", ");
        }
        out.append(q.as_str());
        i += 1;
        assert(parts.take(i as int).drop_last() =~= parts.take(i - 1));
        assert(out@ =~= join(parts.take(i as int), ", "@)) by {
            if i == 1 {
                assert(parts.take(1).len() == 1);
            }
        }
    }
    assert(parts.take(cols.len() as int) =~= parts);
    out
}

// ----------------------------------------------------------------------
// statements
// ----------------------------------------------------------------------

/// `CREATE VIRTUAL TABLE IF NOT EXISTS "<table>" USING fts5(<cols>, tokenize ='unicode61')`.
pub open spec fn create_fts5_text(table: Seq<char>, cols: Seq<Seq<char>>) -> Seq<char> {
    "CREATE VIRTUAL TABLE IF NOT EXISTS \""@ + table + "\" USING fts5("@ + column_list(cols)
        + ", tokenize ='unicode61')"@
}

/// The statement that creates the FTS5 table for the given columns.
pub fn create_fts5_sql(table_name: &str, columns: &Vec<String>) -> (r: String)
    ensures
        r@ == create_fts5_text(table_name@, columns.deep_view()),
{
    let cols = quoted_column_list(columns);
    let mut s = String::from_str("CREATE VIRTUAL TABLE IF NOT EXISTS \"");
    s.append(table_name);
    s.append("\" USING fts5(");
    s.append(cols.as_str());
    s.append(", tokenize ='unicode61')");
    s
}

/// `DROP TABLE IF EXISTS "<table>"`.
pub fn drop_table_sql(table_name: &str) -> (r: String)
    ensures
        r@ == "DROP TABLE IF EXISTS \""@ + table_name@ + "\""@,
{
    let mut s = String::from_str("DROP TABLE IF EXISTS \"");
    s.append(table_name);
    s.append("\"");
    s
}

/// `(?, ?, ..., ?)` with `c` placeholders.
pub open spec fn row_placeholders(c: nat) -> Seq<char> {
    seq!['('] + join(Seq::new(c, |i: int| seq!['?']), ", "@) + seq![')']
}

/// `r` copies of the row placeholders joined by `,`.
pub open spec fn values_clause(c: nat, r: nat) -> Seq<char> {
    join(Seq::new(r, |i: int| row_placeholders(c)), seq![','])
}

/// `INSERT INTO "<table>" (<columns>) VALUES <values>`.
pub open spec fn insert_text(table: Seq<char>, columns: Seq<char>, c: nat, r: nat) -> Seq<char> {
    "INSERT INTO \""@ + table + "\" ("@ + columns + ") VALUES "@ + values_clause(c, r)
}

fn placeholders(col_count: usize) -> (s: String)
    ensures
        s@ == row_placeholders(col_count as nat),
{
    let ghost parts = Seq::new(col_count as nat, |i: int| seq!['?']);
    let mut s = String::new();
    push_char(&mut s, '(');
    let mut i: usize = 0;
    while i < col_count
        invariant
            i <= col_count,
            parts == Seq::new(col_count as nat, |i: int| seq!['?']),
            s@ == seq!['('] + join(parts.take(i as int), ", "@),
        decreases col_count - i,
    {
        if i > 0 {
            s.append(", ");
        }
        push_char(&mut s, '?');
        i += 1;
        assert(parts.take(i as int).drop_last() =~= parts.take(i - 1));
        assert(s@ =~= seq!['('] + join(parts.take(i as int), ", "@)) by {
            if i == 1 {
                assert(parts.take(1).len() == 1);
            }
        }
    }
    assert(parts.take(col_count as int) =~= parts);
    push_char(&mut s, ')');
    s
}

/// A multi-row INSERT statement with `rows` tuples of `col_count`
/// placeholders.
pub fn build_insert_sql(table: &str, columns: &str, col_count: usize, rows: usize) -> (s: String)
    ensures
        s@ == insert_text(table@, columns@, col_count as nat, rows as nat),
{
    let row = placeholders(col_count);
    let ghost parts = Seq::new(rows as nat, |i: int| row_placeholders(col_count as nat));
    let mut values = String::new();
    let mut i: usize = 0;
    while i < rows
        invariant
            i <= rows,
            row@ == row_placeholders(col_count as nat),
            parts == Seq::new(rows as nat, |i: int| row_placeholders(col_count as nat)),
            values@ == join(parts.take(i as int), seq![',']),
        decreases rows - i,
    {
        if i > 0 {
            push_char(&mut values, ',');
        }
        values.append(row.as_str());
        i += 1;
        assert(parts.take(i as int).drop_last() =~= parts.take(i - 1));
        assert(values@ =~= join(parts.take(i as int), seq![','])) by {
            if i == 1 {
                assert(parts.take(1).len() == 1);
            }
        }
    }
    assert(parts.take(rows as int) =~= parts);
    let mut s = String::from_str("INSERT INTO \"");
    s.append(table);
    s.append("\" (");
    s.append(columns);
    s.append(") VALUES ");
    s.append(values.as_str());
    s
}

/// How many times `c` occurs in `s`.
pub open spec fn count_char(s: Seq<char>, c: char) -> nat
    decreases s.len(),
{
    if s.len() == 0 {
        0
    } else {
        count_char(s.drop_last(), c) + if s.last() == c {
            1nat
        } else {
            0nat
        }
    }
}

proof fn lemma_count_char_concat(a: Seq<char>, b: Seq<char>, c: char)
    ensures
        count_char(a + b, c) == count_char(a, c) + count_char(b, c),
    decreases b.len(),
{
    if b.len() == 0 {
        assert(a + b =~= a);
    } else {
        lemma_count_char_concat(a, b.drop_last(), c);
        assert((a + b).drop_last() =~= a + b.drop_last());
    }
}

proof fn lemma_join_placeholders(n: nat)
    ensures
        count_char(join(Seq::new(n, |i: int| seq!['?']), ", "@), '?') == n,
    decreases n,
{
    reveal_strlit(", ");
    let parts = Seq::new(n, |i: int| seq!['?']);
    if n == 0 {
    } else if n == 1 {
        assert(count_char(seq!['?'], '?') == 1) by {
            assert(seq!['?'].drop_last() =~= Seq::<char>::empty());
            reveal_with_fuel(count_char, 2);
        }
    } else {
        lemma_join_placeholders((n - 1) as nat);
        assert(parts.drop_last() =~= Seq::new((n - 1) as nat, |i: int| seq!['?']));
        let j = join(parts.drop_last(), ", "@);
        lemma_count_char_concat(j, ", "@, '?');
        lemma_count_char_concat(j + ", "@, seq!['?'], '?');
        assert(count_char(", "@, '?') == 0) by {
            assert(", "@.drop_last().drop_last() =~= Seq::<char>::empty());
            assert(", "@.drop_last() =~= seq![',']);
            reveal_with_fuel(count_char, 3);
        }
        assert(count_char(seq!['?'], '?') == 1) by {
            assert(seq!['?'].drop_last() =~= Seq::<char>::empty());
            reveal_with_fuel(count_char, 2);
        }
    }
}

proof fn lemma_row_placeholders(c: nat)
    ensures
        count_char(row_placeholders(c), '?') == c,
{
    let inner = join(Seq::new(c, |i: int| seq!['?']), ", "@);
    lemma_join_placeholders(c);
    lemma_count_char_concat(seq!['('], inner, '?');
    lemma_count_char_concat(seq!['('] + inner, seq![')'], '?');
    assert(seq!['('].drop_last() =~= Seq::<char>::empty());
    assert(seq![')'].drop_last() =~= Seq::<char>::empty());
    assert(count_char(seq!['('], '?') == 0) by {
        reveal_with_fuel(count_char, 2);
    }
    assert(count_char(seq![')'], '?') == 0) by {
        reveal_with_fuel(count_char, 2);
    }
}

/// The VALUES clause of an INSERT built for `r` rows of `c` columns holds
/// exactly `c * r` placeholders: one bound value per field.
pub proof fn law_values_clause_placeholders(c: nat, r: nat)
    ensures
        count_char(values_clause(c, r), '?') == c * r,
    decreases r,
{
    let parts = Seq::new(r, |i: int| row_placeholders(c));
    lemma_row_placeholders(c);
    if r == 0 {
        assert(c * r == 0) by (nonlinear_arith)
            requires
                r == 0,
        ;
    } else if r == 1 {
        assert(parts[0] == row_placeholders(c));
        assert(c * r == c) by (nonlinear_arith)
            requires
                r == 1,
        ;
    } else {
        assert(parts.last() == row_placeholders(c));
        law_values_clause_placeholders(c, (r - 1) as nat);
        assert(parts.drop_last() =~= Seq::new((r - 1) as nat, |i: int| row_placeholders(c)));
        let j = join(parts.drop_last(), seq![',']);
        lemma_count_char_concat(j, seq![','], '?');
        lemma_count_char_concat(j + seq![','], row_placeholders(c), '?');
        assert(seq![','].drop_last() =~= Seq::<char>::empty());
        assert(count_char(seq![','], '?') == 0) by {
            reveal_with_fuel(count_char, 2);
        }
        assert(c * r == c * (r - 1) + c) by (nonlinear_arith)
            requires
                r >= 1,
        ;
    }
}

/// The values bound to a multi-row INSERT: for each row, its first
/// `col_count` fields, missing ones as empty strings.
pub open spec fn bound_values(chunk: Seq<Seq<Seq<char>>>, col_count: nat) -> Seq<Seq<char>>
    decreases chunk.len(),
{
    if chunk.len() == 0 {
        Seq::empty()
    } else {
        bound_values(chunk.drop_last(), col_count) + Seq::new(
            col_count,
            |i: int|
                if i < chunk.last().len() {
                    chunk.last()[i]
                } else {
                    Seq::<char>::empty()
                },
        )
    }
}

proof fn lemma_bound_values_len(chunk: Seq<Seq<Seq<char>>>, c: nat)
    ensures
        bound_values(chunk, c).len() == chunk.len() * c,
    decreases chunk.len(),
{
    if chunk.len() > 0 {
        lemma_bound_values_len(chunk.drop_last(), c);
        assert(chunk.len() * c == (chunk.len() - 1) * c + c) by (nonlinear_arith)
            requires
                chunk.len() >= 1,
        ;
    }
}

/// The statement built for a batch and the values bound for it agree: the
/// VALUES clause for `chunk.len()` rows of `c` columns has exactly one
/// placeholder per bound value.
pub proof fn law_statement_matches_binds(chunk: Seq<Seq<Seq<char>>>, c: nat)
    ensures
        count_char(values_clause(c, chunk.len()), '?') == bound_values(chunk, c).len(),
{
    law_values_clause_placeholders(c, chunk.len());
    lemma_bound_values_len(chunk, c);
    assert(chunk.len() * c == c * chunk.len()) by (nonlinear_arith);
}

/// The values to bind, in order, for one batch of rows.
pub fn bind_values(chunk: &Vec<Vec<String>>, col_count: usize) -> (vals: Vec<String>)
    ensures
        vals.deep_view() == bound_values(chunk.deep_view(), col_count as nat),
        vals@.len() == chunk@.len() * col_count,
{
    let ghost cv = chunk.deep_view();
    let mut vals: Vec<String> = Vec::new();
    let mut r: usize = 0;
    assert(cv.take(0) =~= Seq::<Seq<Seq<char>>>::empty());
    while r < chunk.len()
        invariant
            r <= chunk.len(),
            cv == chunk.deep_view(),
            vals.deep_view() == bound_values(cv.take(r as int), col_count as nat),
        decreases chunk.len() - r,
    {
        let row = &chunk[r];
        let ghost before = vals.deep_view();
        let ghost rv = row.deep_view();
        assert(rv == cv[r as int]);
        let mut i: usize = 0;
        while i < col_count
            invariant
                i <= col_count,
                rv == row.deep_view(),
                vals.deep_view() == before + Seq::new(
                    i as nat,
                    |k: int|
                        if k < rv.len() {
                            rv[k]
                        } else {
                            Seq::<char>::empty()
                        },
                ),
            decreases col_count - i,
        {
            let v = if i < row.len() {
                row[i].clone()
            } else {
                String::new()
            };
            let ghost b2 = vals.deep_view();
            let ghost vv = v@;
            assert(vv == (if i < rv.len() { rv[i as int] } else { Seq::<char>::empty() }));
            vals.push(v);
            assert(vals.deep_view() =~= b2.push(vv));
            i += 1;
            assert(vals.deep_view() =~= before + Seq::new(
                i as nat,
                |k: int|
                    if k < rv.len() {
                        rv[k]
                    } else {
                        Seq::<char>::empty()
                    },
            ));
        }
        assert(cv.take(r + 1).drop_last() =~= cv.take(r as int));
        assert(cv.take(r + 1).last() == rv);
        r += 1;
    }
    assert(cv.take(chunk.len() as int) =~= cv);
    proof {
        lemma_bound_values_len(cv, col_count as nat);
    }
    vals
}

/// Rows per multi-row INSERT: the requested batch size (at least 1), cut
/// so that rows times columns stays within `SQLITE_MAX_PARAMS` (but at
/// least one row).
pub open spec fn effective_batch_size(col_count: nat, batch_size: u32) -> nat {
    let q = (SQLITE_MAX_PARAMS as nat) / col_count;
    let cap: nat = if q > 1 {
        q
    } else {
        1
    };
    let b: nat = if batch_size > 1 {
        batch_size as nat
    } else {
        1
    };
    if b < cap {
        b
    } else {
        cap
    }
}

/// Why rows cannot be inserted.
#[derive(Debug, Clone, Copy, PartialEq, Eq, Structural)]
pub enum InsertError {
    /// The table has no columns.
    ZeroColumns,
}

/// Rows per INSERT statement for a table of `col_count` columns.
pub fn effective_batch(col_count: usize, batch_size: u32) -> (r: Result<usize, InsertError>)
    ensures
        col_count == 0 <==> r == Err::<usize, InsertError>(InsertError::ZeroColumns),
        r matches Ok(n) ==> n == effective_batch_size(col_count as nat, batch_size),
{
    if col_count == 0 {
        return Err(InsertError::ZeroColumns);
    }
    let q = SQLITE_MAX_PARAMS / col_count;
    let cap = if q > 1 {
        q
    } else {
        1
    };
    let b: usize = if batch_size > 1 {
        batch_size as usize
    } else {
        1
    };
    Ok(if b < cap {
        b
    } else {
        cap
    })
}

/// A full batch never binds more than `SQLITE_MAX_PARAMS` values, for any
/// table of at most `SQLITE_MAX_PARAMS` columns, and holds at least one row.
pub proof fn law_batch_within_param_limit(col_count: nat, batch_size: u32)
    requires
        0 < col_count <= SQLITE_MAX_PARAMS,
    ensures
        1 <= effective_batch_size(col_count, batch_size),
        effective_batch_size(col_count, batch_size) * col_count <= SQLITE_MAX_PARAMS,
{
    let q = SQLITE_MAX_PARAMS as nat / col_count;
    assert(q * col_count <= SQLITE_MAX_PARAMS) by (nonlinear_arith)
        requires
            q == SQLITE_MAX_PARAMS as nat / col_count,
            col_count > 0,
    ;
    assert(q >= 1) by (nonlinear_arith)
        requires
            q == SQLITE_MAX_PARAMS as nat / col_count,
            0 < col_count <= SQLITE_MAX_PARAMS,
    ;
    let e = effective_batch_size(col_count, batch_size);
    assert(e <= q);
    assert(e * col_count <= q * col_count) by (nonlinear_arith)
        requires
            e <= q,
    ;
}

/// An INSERT batch never holds more rows than were asked for (at least one),
/// and holds exactly that many whenever they fit under SQLite's parameter
/// limit: the limit only ever shrinks a batch.
pub proof fn law_batch_is_the_requested_size_when_it_fits(col_count: nat, batch_size: u32)
    requires
        col_count > 0,
    ensures
        ({
            let asked: nat = if batch_size >= 1 { batch_size as nat } else { 1 };
            &&& effective_batch_size(col_count, batch_size) <= asked
            &&& asked * col_count <= SQLITE_MAX_PARAMS ==> effective_batch_size(col_count, batch_size) == asked
        }),
{
    let asked: nat = if batch_size >= 1 { batch_size as nat } else { 1 };
    let q = (SQLITE_MAX_PARAMS as nat) / col_count;
    if asked * col_count <= SQLITE_MAX_PARAMS {
        assert(asked <= q) by (nonlinear_arith)
            requires
                asked * col_count <= SQLITE_MAX_PARAMS as nat,
                col_count > 0,
                q == (SQLITE_MAX_PARAMS as nat) / col_count,
        ;
    }
}

/// The pragmas that trade durability for insert speed, after
/// `PRAGMA journal_mode = OFF;`.
pub fn fast_pragmas() -> (v: Vec<String>)
    ensures
        v@.len() == 5,
        v@[0]@ == "PRAGMA synchronous = OFF;"@,
        v@[1]@ == "PRAGMA locking_mode = EXCLUSIVE;"@,
        v@[2]@ == "PRAGMA temp_store = MEMORY;"@,
        v@[3]@ == "PRAGMA cache_size = -"@ + decimal(SQLITE_CACHE_KIB as nat) + ";"@,
        v@[4]@ == "PRAGMA mmap_size = 268435456;"@,
{
    let mut v: Vec<String> = Vec::new();
    v.push(String::from_str("PRAGMA synchronous = OFF;"));
    v.push(String::from_str("PRAGMA locking_mode = EXCLUSIVE;"));
    v.push(String::from_str("PRAGMA temp_store = MEMORY;"));
    let mut c = String::from_str("PRAGMA cache_size = -");
    push_decimal(&mut c, SQLITE_CACHE_KIB as u64);
    c.append(";");
    v.push(c);
    v.push(String::from_str("PRAGMA mmap_size = 268435456;"));
    v
}

// ----------------------------------------------------------------------
// the SQLite source
// ----------------------------------------------------------------------

pub open spec fn ends_with(s: Seq<char>, suffix: Seq<char>) -> bool {
    s.len() >= suffix.len() && s.subrange(s.len() - suffix.len(), s.len() as int) == suffix
}

/// Whether `s` ends with `suffix`.
pub fn str_ends_with(s: &str, suffix: &str) -> (r: bool)
    ensures
        r == ends_with(s@, suffix@),
{
    let a = chars_of(s);
    let b = chars_of(suffix);
    if b.len() > a.len() {
        return false;
    }
    let off = a.len() - b.len();
    let mut i: usize = 0;
    while i < b.len()
        invariant
            i <= b.len(),
            off + b.len() == a.len(),
            a@ == s@,
            b@ == suffix@,
            forall|j: int| 0 <= j < i ==> a@[off + j] == b@[j],
        decreases b.len() - i,
    {
        if a[off + i] != b[i] {
            assert(s@.subrange(off as int, s@.len() as int)[i as int] == a@[off + i]);
            return false;
        }
        i += 1;
    }
    assert(s@.subrange(off as int, s@.len() as int) =~= suffix@);
    true
}

/// `path` with `ext` appended unless it already ends with it.
pub open spec fn with_ext(path: Seq<char>, ext: Seq<char>) -> Seq<char> {
    if ends_with(path, ext) {
        path
    } else {
        path + ext
    }
}

/// Adds an extension such as `.csv` unless the path already has it.
pub fn path_with_extension(path: &str, ext: &str) -> (r: String)
    ensures
        r@ == with_ext(path@, ext@),
{
    let mut s = String::from_str(path);
    if !str_ends_with(path, ext) {
        s.append(ext);
    }
    s
}

/// The connection URL of an existing SQLite database: `sqlite://<file>`,
/// with `.db` appended unless the file name ends with it.
pub fn sqlite_source_url(db_file: &str) -> (r: String)
    ensures
        r@ == "sqlite://"@ + with_ext(db_file@, ".db"@),
{
    let p = path_with_extension(db_file, ".db");
    let mut s = String::from_str("sqlite://");
    s.append(p.as_str());
    s
}

/// The connection URL of the SQLite output: `sqlite://<output>.db`.
pub fn sqlite_target_url(output_path: &str) -> (r: String)
    ensures
        r@ == "sqlite://"@ + output_path@ + ".db"@,
{
    let mut s = String::from_str("sqlite://");
    s.append(output_path);
    s.append(".db");
    s
}

/// `PRAGMA table_info("<table>")`.
pub fn table_info_sql(table: &str) -> (r: String)
    ensures
        r@ == "PRAGMA table_info(\""@ + table@ + "\")"@,
{
    let mut s = String::from_str("PRAGMA table_info(\"");
    s.append(table);
    s.append("\")");
    s
}

/// `SELECT count(*) FROM "<table>"`.
pub fn row_count_sql(table: &str) -> (r: String)
    ensures
        r@ == "SELECT count(*) FROM \""@ + table@ + "\""@,
{
    let mut s = String::from_str("SELECT count(*) FROM \"");
    s.append(table);
    s.append("\"");
    s
}

/// `CAST("<c>" AS TEXT)`.
pub open spec fn cast_text(c: Seq<char>) -> Seq<char> {
    "CAST(\""@ + c + "\" AS TEXT)"@
}

/// `SELECT CAST("c1" AS TEXT), ... FROM "<table>"`: every column read as text.
pub open spec fn select_text(table: Seq<char>, cols: Seq<Seq<char>>) -> Seq<char> {
    "SELECT "@ + join(cols.map_values(|c: Seq<char>| cast_text(c)), ", "@) + " FROM \""@ + table
        + "\""@
}

/// The query that streams a table with every column cast to text.
pub fn select_as_text_sql(table: &str, columns: &Vec<String>) -> (r: String)
    ensures
        r@ == select_text(table@, columns.deep_view()),
{
    let ghost parts = columns.deep_view().map_values(|c: Seq<char>| cast_text(c));
    let mut list = String::new();
    let mut i: usize = 0;
    while i < columns.len()
        invariant
            i <= columns.len(),
            parts == columns.deep_view().map_values(|c: Seq<char>| cast_text(c)),
            list@ == join(parts.take(i as int), ", "@),
        decreases columns.len() - i,
    {
        if i > 0 {
            list.append(", ");
        }
        list.append("CAST(\"");
        list.append(columns[i].as_str());
        list.append("\" AS TEXT)");
        i += 1;
        assert(parts.take(i as int).drop_last() =~= parts.take(i - 1));
        assert(list@ =~= join(parts.take(i as int), ", "@)) by {
            if i == 1 {
                assert(parts.take(1).len() == 1);
            }
        }
    }
    assert(parts.take(columns.len() as int) =~= parts);
    let mut s = String::from_str("SELECT ");
    s.append(list.as_str());
    s.append(" FROM \"");
    s.append(table);
    s.append("\"");
    s
}

/// A row count reported by SQLite, negative values read as 0.
pub fn row_total(count: i64) -> (r: u64)
    ensures
        r as int == (if count < 0 {
            0int
        } else {
            count as int
        }),
{
    if count < 0 {
        0
    } else {
        count as u64
    }
}

/// Why a SQLite source cannot be read.
#[derive(Debug, Clone, Copy, PartialEq, Eq, Structural)]
pub enum SourceError {
    /// The database holds no user table or view.
    NoTables,
    /// The table has no columns.
    NoColumns,
}

/// The table read from a SQLite source: the requested one when the
/// database has it (`found`), else its first user table (`first`).
pub fn resolve_table(found: Option<String>, first: Option<String>) -> (r: Result<String, SourceError>)
    ensures
        (found matches Some(t) ==> (r matches Ok(n) && n@ == t@)),
        found is None ==> (first matches Some(t) ==> (r matches Ok(n) && n@ == t@)),
        (found is None && first is None ==> r == Err::<String, SourceError>(SourceError::NoTables)),
{
    match found {
        Some(t) => Ok(t),
        None => match first {
            Some(t) => Ok(t),
            None => Err(SourceError::NoTables),
        },
    }
}

/// The columns of a source table, refused when there are none.
pub fn column_names(names: Vec<String>) -> (r: Result<Vec<String>, SourceError>)
    ensures
        names.len() == 0 ==> r == Err::<Vec<String>, SourceError>(SourceError::NoColumns),
        names.len() > 0 ==> (r matches Ok(v) && v@ == names@),
{
    if names.len() == 0 {
        Err(SourceError::NoColumns)
    } else {
        Ok(names)
    }
}

} // verus!
