//! Reading one table out of a SQL dump in a single pass.
//!
//! `sql_open` scans the dump for `CREATE TABLE` statements (remembering their
//! column names) until it meets the first `INSERT INTO` of the wanted table;
//! it then returns that table's name, its columns and a `SqlRowIter`
//! positioned on the `VALUES` tuples. Every step is specified by a spec
//! function over the tokenizer state (`open_scan`, `row_next`, ...).

use vstd::prelude::*;
use crate::sql_lex::{SqlError, TokenOf, Token, TokV, TokSt, Tokenizer, opt_view, res_view, next_tok, peek_tok, lemma_next_tok, lemma_peek_tok, lemma_lex, st_wf, rank, dotted};
use crate::text::{chars_of, string_of, synthetic_column, synthetic_name, ascii_lower_chars, push_char, ci_eq, str_ci_eq, ascii_lowercase, join};

verus! {

// ----------------------------------------------------------------------
// characters
// ----------------------------------------------------------------------

/// `s` without leading copies of `c`.
pub open spec fn trim_start_char(s: Seq<char>, c: char) -> Seq<char>
    decreases s.len(),
{
    if s.len() > 0 && s[0] == c {
        trim_start_char(s.drop_first(), c)
    } else {
        s
    }
}

/// `s` without trailing copies of `c`.
pub open spec fn trim_end_char(s: Seq<char>, c: char) -> Seq<char>
    decreases s.len(),
{
    if s.len() > 0 && s.last() == c {
        trim_end_char(s.drop_last(), c)
    } else {
        s
    }
}

/// `str::trim_matches(c)`.
pub open spec fn trim_char(s: Seq<char>, c: char) -> Seq<char> {
    trim_end_char(trim_start_char(s, c), c)
}

/// What follows the last `.` (all of `s` when there is none), as
/// `s.rsplit('.').next()` gives it.
pub open spec fn after_last_dot(s: Seq<char>) -> Seq<char>
    decreases s.len(),
{
    if s.len() == 0 {
        s
    } else if s.last() == '.' {
        Seq::empty()
    } else {
        after_last_dot(s.drop_last()).push(s.last())
    }
}

/// The bare name inside an identifier: quotes and brackets trimmed, schema
/// qualifiers dropped.
pub open spec fn ident_text(s: Seq<char>) -> Seq<char> {
    after_last_dot(trim_char(trim_char(trim_char(trim_char(s, '`'), '"'), ']'), '['))
}

/// The name a token stands for (empty for punctuation).
pub open spec fn ident_of(t: TokV) -> Seq<char> {
    match t {
        TokenOf::Ident(s) => ident_text(s),
        TokenOf::Str(s) => ident_text(s),
        TokenOf::Word(s) => ident_text(s),
        _ => ident_text(Seq::empty()),
    }
}

/// A name made of characters that quote, bracket or qualify nothing.
pub open spec fn plain_name(n: Seq<char>) -> bool {
    &&& n.len() > 0
    &&& forall|i: int| 0 <= i < n.len() ==> {
        let c = #[trigger] n[i];
        c != '`' && c != '"' && c != '[' && c != ']' && c != '.'
    }
}

proof fn lemma_trim_char_untouched(s: Seq<char>, c: char)
    requires
        s.len() > 0,
        s[0] != c,
        s.last() != c,
    ensures
        trim_char(s, c) == s,
{
}

proof fn lemma_trim_char_wrapped(n: Seq<char>, c: char)
    requires
        n.len() > 0,
        n[0] != c,
        n.last() != c,
    ensures
        trim_char(seq![c] + n + seq![c], c) == n,
{
    let s = seq![c] + n + seq![c];
    let t = n + seq![c];
    assert(s.drop_first() =~= t);
    assert(s[0] == c);
    assert(t[0] == n[0]);
    assert(t.drop_last() =~= n);
    assert(t.last() == c);
    assert(trim_start_char(s, c) == trim_start_char(t, c));
    assert(trim_start_char(t, c) == t);
    assert(trim_end_char(n, c) == n);
    assert(trim_end_char(t, c) == trim_end_char(n, c));
}

proof fn lemma_after_last_dot_plain(n: Seq<char>)
    requires
        forall|i: int| 0 <= i < n.len() ==> n[i] != '.',
    ensures
        after_last_dot(n) == n,
    decreases n.len(),
{
    if n.len() > 0 {
        lemma_after_last_dot_plain(n.drop_last());
        assert(after_last_dot(n) =~= n.drop_last().push(n.last()));
    }
}

/// The name an identifier token stands for is the bare name, whether it is
/// written bare, in back quotes, in double quotes or in brackets.
pub proof fn law_identifier_quoting(n: Seq<char>)
    requires
        plain_name(n),
    ensures
        ident_text(n) == n,
        ident_text(seq!['`'] + n + seq!['`']) == n,
        ident_text(seq!['"'] + n + seq!['"']) == n,
        ident_text(seq!['['] + n + seq![']']) == n,
{
    let l = n.len() - 1;
    assert(n[0] != '`' && n[0] != '"' && n[0] != '[' && n[0] != ']');
    assert(n[l] != '`' && n[l] != '"' && n[l] != '[' && n[l] != ']');
    assert(n.last() == n[l]);
    lemma_after_last_dot_plain(n);
    lemma_trim_char_untouched(n, '`');
    lemma_trim_char_untouched(n, '"');
    lemma_trim_char_untouched(n, ']');
    lemma_trim_char_untouched(n, '[');

    let b = seq!['`'] + n + seq!['`'];
    lemma_trim_char_wrapped(n, '`');

    let d = seq!['"'] + n + seq!['"'];
    assert(d[0] == '"' && d.last() == '"');
    lemma_trim_char_untouched(d, '`');
    lemma_trim_char_wrapped(n, '"');

    let k = seq!['['] + n + seq![']'];
    assert(k[0] == '[' && k.last() == ']');
    lemma_trim_char_untouched(k, '`');
    lemma_trim_char_untouched(k, '"');
    let k1 = seq!['['] + n;
    assert(k.drop_last() =~= k1);
    assert(k1.last() == n.last());
    assert(trim_end_char(k1, ']') == k1);
    assert(trim_end_char(k, ']') == trim_end_char(k.drop_last(), ']'));
    assert(trim_end_char(k, ']') == k1);
    assert(trim_start_char(k, ']') == k);
    assert(trim_char(k, ']') == k1);
    assert(k1.drop_first() =~= n);
    assert(trim_start_char(k1, '[') == n);
    assert(trim_char(k1, '[') == n);
}

proof fn lemma_trim_start_step(s: Seq<char>, c: char, k: int)
    requires
        0 <= k <= s.len(),
        forall|j: int| 0 <= j < k ==> s[j] == c,
    ensures
        trim_start_char(s, c) == trim_start_char(s.subrange(k, s.len() as int), c),
    decreases k,
{
    if k > 0 {
        assert(s.drop_first() =~= s.subrange(1, s.len() as int));
        lemma_trim_start_step(s.drop_first(), c, k - 1);
        assert(s.drop_first().subrange(k - 1, s.drop_first().len() as int) =~= s.subrange(
            k,
            s.len() as int,
        ));
    } else {
        assert(s.subrange(0, s.len() as int) =~= s);
    }
}

proof fn lemma_trim_end_step(s: Seq<char>, c: char, k: int)
    requires
        0 <= k <= s.len(),
        forall|j: int| k <= j < s.len() ==> s[j] == c,
    ensures
        trim_end_char(s, c) == trim_end_char(s.subrange(0, k), c),
    decreases s.len() - k,
{
    if k < s.len() {
        assert(s.drop_last() =~= s.subrange(0, s.len() - 1));
        lemma_trim_end_step(s.drop_last(), c, k);
        assert(s.drop_last().subrange(0, k) =~= s.subrange(0, k));
    } else {
        assert(s.subrange(0, s.len() as int) =~= s);
    }
}

/// `trim_matches(c)` on a character vector.
fn trim_char_vec(s: Vec<char>, c: char) -> (r: Vec<char>)
    ensures
        r@ == trim_char(s@, c),
{
    let n = s.len();
    let mut a: usize = 0;
    while a < n && s[a] == c
        invariant
            a <= n,
            n == s@.len(),
            forall|j: int| 0 <= j < a ==> s@[j] == c,
        decreases n - a,
    {
        a += 1;
    }
    proof {
        lemma_trim_start_step(s@, c, a as int);
    }
    let ghost t = s@.subrange(a as int, n as int);
    assert(a < n ==> s@[a as int] == t[0]);
    assert(trim_start_char(t, c) == t);
    let mut b: usize = n;
    while b > a && s[b - 1] == c
        invariant
            a <= b <= n,
            n == s@.len(),
            forall|j: int| b <= j < n ==> s@[j] == c,
        decreases b,
    {
        b -= 1;
    }
    proof {
        lemma_trim_end_step(t, c, b - a);
        assert(t.subrange(0, b - a) =~= s@.subrange(a as int, b as int));
        let u = s@.subrange(a as int, b as int);
        assert(b > a ==> u.last() == s@[b - 1]);
    }
    let mut out: Vec<char> = Vec::new();
    let mut i = a;
    while i < b
        invariant
            a <= i <= b <= n,
            n == s@.len(),
            out@ == s@.subrange(a as int, i as int),
        decreases b - i,
    {
        out.push(s[i]);
        i += 1;
        assert(out@ =~= s@.subrange(a as int, i as int));
    }
    out
}

proof fn lemma_after_last_dot_step(s: Seq<char>, k: int)
    requires
        0 <= k <= s.len(),
        forall|j: int| k <= j < s.len() ==> s[j] != '.',
        k > 0 ==> s[k - 1] == '.',
    ensures
        after_last_dot(s) == s.subrange(k, s.len() as int),
    decreases s.len() - k,
{
    if s.len() == 0 {
    } else if k == s.len() {
        assert(s.subrange(k, s.len() as int) =~= Seq::<char>::empty());
    } else {
        lemma_after_last_dot_step(s.drop_last(), k);
        assert(s.drop_last().subrange(k, s.drop_last().len() as int).push(s.last()) =~= s.subrange(
            k,
            s.len() as int,
        ));
    }
}

/// The bare name inside an identifier text.
pub fn ident_text_of(s: &String) -> (r: String)
    ensures
        r@ == ident_text(s@),
{
    let v = chars_of(s.as_str());
    let v = trim_char_vec(v, '`');
    let v = trim_char_vec(v, '"');
    let v = trim_char_vec(v, ']');
    let v = trim_char_vec(v, '[');
    let n = v.len();
    let mut k: usize = n;
    while k > 0 && v[k - 1] != '.'
        invariant
            k <= n,
            n == v@.len(),
            forall|j: int| k <= j < n ==> v@[j] != '.',
        decreases k,
    {
        k -= 1;
    }
    proof {
        lemma_after_last_dot_step(v@, k as int);
    }
    string_of(&v.as_slice()[k..n])
}

/// The name a token stands for.
pub fn token_ident(t: &Token) -> (r: String)
    ensures
        r@ == ident_of(t@),
{
    match t {
        TokenOf::Ident(s) => ident_text_of(s),
        TokenOf::Str(s) => ident_text_of(s),
        TokenOf::Word(s) => ident_text_of(s),
        _ => ident_text_of(&String::new()),
    }
}

/// The token is a word equal to `kw` ignoring ASCII case.
pub open spec fn is_word_kw(t: Option<TokV>, kw: Seq<char>) -> bool {
    match t {
        Some(TokenOf::Word(w)) => ci_eq(w, kw),
        _ => false,
    }
}

fn token_is_kw(t: &Option<Token>, kw: &str) -> (r: bool)
    ensures
        r == is_word_kw(opt_view(*t), kw@),
{
    match t {
        Some(TokenOf::Word(w)) => str_ci_eq(w.as_str(), kw),
        _ => false,
    }
}

/// Column-definition keywords that open a constraint rather than a column.
pub open spec fn is_constraint_kw(w: Seq<char>) -> bool {
    ci_eq(w, "PRIMARY"@) || ci_eq(w, "UNIQUE"@) || ci_eq(w, "KEY"@) || ci_eq(w, "INDEX"@) || ci_eq(
        w,
        "CONSTRAINT"@,
    ) || ci_eq(w, "FOREIGN"@) || ci_eq(w, "CHECK"@) || ci_eq(w, "FULLTEXT"@) || ci_eq(
        w,
        "SPATIAL"@,
    )
}

/// Whether a word opens a table constraint (`PRIMARY`, `KEY`, ...).
pub fn constraint_keyword(w: &str) -> (r: bool)
    ensures
        r == is_constraint_kw(w@),
{
    str_ci_eq(w, "PRIMARY") || str_ci_eq(w, "UNIQUE") || str_ci_eq(w, "KEY") || str_ci_eq(w, "INDEX")
        || str_ci_eq(w, "CONSTRAINT") || str_ci_eq(w, "FOREIGN") || str_ci_eq(w, "CHECK")
        || str_ci_eq(w, "FULLTEXT") || str_ci_eq(w, "SPATIAL")
}

// ----------------------------------------------------------------------
// fields of a VALUES tuple
// ----------------------------------------------------------------------

/// The text a token contributes to a field spelled with several tokens.
pub open spec fn tok_text(t: TokV) -> Seq<char> {
    match t {
        TokenOf::Word(w) => w,
        TokenOf::Ident(w) => w,
        TokenOf::Str(s) => s,
        TokenOf::LParen => seq!['('],
        TokenOf::RParen => seq![')'],
        TokenOf::Comma => seq![','],
        TokenOf::Semi => seq![';'],
    }
}

/// The text of the last string literal among the tokens.
pub open spec fn last_str(ts: Seq<TokV>) -> Option<Seq<char>>
    decreases ts.len(),
{
    if ts.len() == 0 {
        None
    } else {
        match ts.last() {
            TokenOf::Str(s) => Some(s),
            _ => last_str(ts.drop_last()),
        }
    }
}

/// The value of a field spelled with the given tokens: empty for no token
/// or a bare `NULL`; the last string literal if there is one; a single word
/// as written; otherwise the tokens' texts joined by spaces.
pub open spec fn field_value(ts: Seq<TokV>) -> Seq<char> {
    if ts.len() == 0 {
        Seq::empty()
    } else if last_str(ts) is Some {
        last_str(ts)->Some_0
    } else if ts.len() == 1 {
        match ts[0] {
            TokenOf::Word(w) => if ci_eq(w, "NULL"@) {
                Seq::empty()
            } else {
                w
            },
            TokenOf::Ident(w) => w,
            _ => Seq::empty(),
        }
    } else {
        join(ts.map_values(|t: TokV| tok_text(t)), seq![' '])
    }
}

pub open spec fn toks_view(ts: Seq<Token>) -> Seq<TokV> {
    ts.map_values(|t: Token| t@)
}

fn token_text(t: &Token) -> (r: String)
    ensures
        r@ == tok_text(t@),
{
    match t {
        TokenOf::Word(w) => w.clone(),
        TokenOf::Ident(w) => w.clone(),
        TokenOf::Str(s) => s.clone(),
        TokenOf::LParen => string_of(&['(']),
        TokenOf::RParen => string_of(&[')']),
        TokenOf::Comma => string_of(&[',']),
        TokenOf::Semi => string_of(&[';']),
    }
}

/// The value of a field spelled with the given tokens (see `field_value`).
pub fn finalize_field(tokens: &Vec<Token>) -> (r: String)
    ensures
        r@ == field_value(toks_view(tokens@)),
{
    let ghost tv = toks_view(tokens@);
    if tokens.len() == 0 {
        return String::new();
    }
    let mut k: usize = tokens.len();
    assert(tv.take(k as int) =~= tv);
    while k > 0
        invariant
            k <= tokens.len(),
            tv == toks_view(tokens@),
            last_str(tv) == last_str(tv.take(k as int)),
        decreases k,
    {
        let ghost pre = tv.take(k as int);
        assert(pre.last() == tv[k - 1]);
        assert(pre.drop_last() =~= tv.take(k - 1));
        match &tokens[k - 1] {
            TokenOf::Str(s) => {
                return s.clone();
            },
            _ => {},
        }
        k -= 1;
    }
    assert(last_str(tv.take(0)) is None);
    if tokens.len() == 1 {
        return match &tokens[0] {
            TokenOf::Word(w) => {
                if str_ci_eq(w.as_str(), "NULL") {
                    String::new()
                } else {
                    w.clone()
                }
            },
            TokenOf::Ident(w) => w.clone(),
            _ => String::new(),
        };
    }
    let ghost parts = tv.map_values(|t: TokV| tok_text(t));
    let mut out = token_text(&tokens[0]);
    let mut i: usize = 1;
    assert(parts.take(1).drop_last() =~= Seq::<Seq<char>>::empty());
    while i < tokens.len()
        invariant
            1 <= i <= tokens.len(),
            tv == toks_view(tokens@),
            parts == tv.map_values(|t: TokV| tok_text(t)),
            out@ == join(parts.take(i as int), seq![' ']),
        decreases tokens.len() - i,
    {
        push_char(&mut out, ' ');
        let piece = token_text(&tokens[i]);
        out.append(piece.as_str());
        i += 1;
        assert(parts.take(i as int).drop_last() =~= parts.take(i - 1));
    }
    assert(parts.take(tokens.len() as int) =~= parts);
    out
}

// ----------------------------------------------------------------------
// statements, as spec functions over the tokenizer state
// ----------------------------------------------------------------------

/// `skip_to_semi`: drops tokens up to and including the next `;`.
pub open spec fn skip_semi(d: Seq<u8>, st: TokSt) -> (Result<(), SqlError>, TokSt)
    decreases rank(d, st),
{
    if !st_wf(d, st) {
        (Ok(()), st)
    } else {
        let (r, s1) = next_tok(d, st);
        proof {
            lemma_next_tok(d, st);
        }
        match r {
            Err(e) => (Err(e), s1),
            Ok(None) => (Ok(()), s1),
            Ok(Some(TokenOf::Semi)) => (Ok(()), s1),
            Ok(Some(_)) => skip_semi(d, s1),
        }
    }
}

pub proof fn lemma_skip_semi(d: Seq<u8>, st: TokSt)
    requires
        st_wf(d, st),
    ensures
        st_wf(d, skip_semi(d, st).1),
        rank(d, skip_semi(d, st).1) <= rank(d, st),
    decreases rank(d, st),
{
    lemma_next_tok(d, st);
    let (r, s1) = next_tok(d, st);
    match r {
        Ok(Some(TokenOf::Semi)) => {},
        Ok(Some(_)) => lemma_skip_semi(d, s1),
        _ => {},
    }
}

/// Drops tokens up to and including the next `;`.
pub fn skip_to_semi(tok: &mut Tokenizer) -> (r: Result<(), SqlError>)
    requires
        old(tok).wf(),
    ensures
        final(tok).wf(),
        final(tok).data() == old(tok).data(),
        (r, final(tok).st()) == skip_semi(old(tok).data(), old(tok).st()),
{
    let ghost d = tok.data();
    loop
        invariant
            tok.wf(),
            tok.data() == d,
            d == old(tok).data(),
            skip_semi(d, tok.st()) == skip_semi(d, old(tok).st()),
        decreases rank(d, tok.st()),
    {
        let ghost s0 = tok.st();
        proof {
            lemma_next_tok(d, s0);
        }
        match tok.next_token() {
            Err(e) => return Err(e),
            Ok(None) => return Ok(()),
            Ok(Some(TokenOf::Semi)) => return Ok(()),
            Ok(Some(_)) => {},
        }
    }
}

/// The rest of a qualified table name: while the next token is a word
/// starting with `.`, the name moves past it (`a . b`, `a.b`, `a .b`).
pub open spec fn table_loop(d: Seq<u8>, st: TokSt, name: Seq<char>) -> (
    Result<Seq<char>, SqlError>,
    TokSt,
)
    decreases rank(d, st),
{
    if !st_wf(d, st) {
        (Ok(name), st)
    } else {
        let (p, s1) = peek_tok(d, st);
        proof {
            lemma_peek_tok(d, st);
        }
        match p {
            Err(e) => (Err(e), s1),
            Ok(t) => if !dotted(t) {
                (Ok(name), s1)
            } else {
                let w = t->Some_0->Word_0;
                let s2 = TokSt { peeked: None, pos: s1.pos };
                if w == seq!['.'] {
                    let (r, s3) = next_tok(d, s2);
                    proof {
                        lemma_next_tok(d, s2);
                    }
                    match r {
                        Err(e) => (Err(e), s3),
                        Ok(Some(nt)) => table_loop(d, s3, ident_of(nt)),
                        Ok(None) => table_loop(d, s3, name),
                    }
                } else {
                    table_loop(d, s2, trim_start_char(w, '.'))
                }
            },
        }
    }
}

pub proof fn lemma_table_loop(d: Seq<u8>, st: TokSt, name: Seq<char>)
    requires
        st_wf(d, st),
    ensures
        st_wf(d, table_loop(d, st, name).1),
        rank(d, table_loop(d, st, name).1) <= rank(d, st),
    decreases rank(d, st),
{
    lemma_peek_tok(d, st);
    let (p, s1) = peek_tok(d, st);
    match p {
        Ok(t) => if dotted(t) {
            let w = t->Some_0->Word_0;
            let s2 = TokSt { peeked: None, pos: s1.pos };
            if w == seq!['.'] {
                lemma_next_tok(d, s2);
                let (r, s3) = next_tok(d, s2);
                match r {
                    Ok(Some(nt)) => lemma_table_loop(d, s3, ident_of(nt)),
                    Ok(None) => lemma_table_loop(d, s3, name),
                    _ => {},
                }
            } else {
                lemma_table_loop(d, s2, trim_start_char(w, '.'));
            }
        },
        _ => {},
    }
}

fn trim_start_dots(s: &String) -> (r: String)
    ensures
        r@ == trim_start_char(s@, '.'),
{
    let v = chars_of(s.as_str());
    let mut a: usize = 0;
    while a < v.len() && v[a] == '.'
        invariant
            a <= v.len(),
            forall|j: int| 0 <= j < a ==> v@[j] == '.',
        decreases v.len() - a,
    {
        a += 1;
    }
    proof {
        lemma_trim_start_step(v@, '.', a as int);
        let t = v@.subrange(a as int, v@.len() as int);
        assert(a < v.len() ==> t[0] == v@[a as int]);
    }
    string_of(&v.as_slice()[a..v.len()])
}

fn is_single_dot(s: &String) -> (r: bool)
    ensures
        r == (s@ == seq!['.']),
{
    let v = chars_of(s.as_str());
    let r = v.len() == 1 && v[0] == '.';
    assert(r ==> v@ =~= seq!['.']);
    r
}

/// The table name a statement names, starting from its first token.
pub fn table_from_token(tok: &mut Tokenizer, first: &Token) -> (r: Result<String, SqlError>)
    requires
        old(tok).wf(),
    ensures
        final(tok).wf(),
        final(tok).data() == old(tok).data(),
        ({
            let (sr, s) = table_loop(old(tok).data(), old(tok).st(), ident_of(first@));
            &&& final(tok).st() == s
            &&& match r {
                Ok(n) => sr == Ok::<Seq<char>, SqlError>(n@),
                Err(e) => sr == Err::<Seq<char>, SqlError>(e),
            }
        }),
{
    let ghost d = tok.data();
    let mut name = token_ident(first);
    loop
        invariant
            tok.wf(),
            tok.data() == d,
            d == old(tok).data(),
            table_loop(d, tok.st(), name@) == table_loop(d, old(tok).st(), ident_of(first@)),
        decreases rank(d, tok.st()),
    {
        let ghost s0 = tok.st();
        proof {
            lemma_peek_tok(d, s0);
        }
        let dotted_next = match tok.peek_dotted_word() {
            Ok(b) => b,
            Err(e) => return Err(e),
        };
        if !dotted_next {
            return Ok(name);
        }
        let ghost s1 = tok.st();
        proof {
            lemma_next_tok(d, s1);
        }
        match tok.next_token() {
            Ok(Some(TokenOf::Word(w))) => {
                if is_single_dot(&w) {
                    let ghost s2 = tok.st();
                    proof {
                        lemma_next_tok(d, s2);
                    }
                    match tok.next_token() {
                        Ok(Some(nt)) => {
                            name = token_ident(&nt);
                        },
                        Ok(None) => {},
                        Err(e) => return Err(e),
                    }
                } else {
                    name = trim_start_dots(&w);
                }
            },
            _ => {
                assert(false);
            },
        }
    }
}


pub open spec fn some_name(r: (Result<Seq<char>, SqlError>, TokSt)) -> (Result<Option<Seq<char>>, SqlError>, TokSt) {
    (
        match r.0 {
            Ok(n) => Ok(Some(n)),
            Err(e) => Err(e),
        },
        r.1,
    )
}

/// After `CREATE`: the table name of `TABLE [IF NOT EXISTS] name`, or
/// `None` when another object is created or the input ends.
pub open spec fn create_name(d: Seq<u8>, st: TokSt) -> (Result<Option<Seq<char>>, SqlError>, TokSt) {
    let (r1, s1) = next_tok(d, st);
    match r1 {
        Err(e) => (Err(e), s1),
        Ok(t) => if !is_word_kw(t, "TABLE"@) {
            (Ok(None), s1)
        } else {
            let (r2, s2) = next_tok(d, s1);
            match r2 {
                Err(e) => (Err(e), s2),
                Ok(None) => (Ok(None), s2),
                Ok(Some(first)) => if is_word_kw(Some(first), "IF"@) {
                    let (r3, s3) = next_tok(d, s2);
                    match r3 {
                        Err(e) => (Err(e), s3),
                        Ok(_) => {
                            let (r4, s4) = next_tok(d, s3);
                            match r4 {
                                Err(e) => (Err(e), s4),
                                Ok(_) => {
                                    let (r5, s5) = next_tok(d, s4);
                                    match r5 {
                                        Err(e) => (Err(e), s5),
                                        Ok(None) => (Ok(None), s5),
                                        Ok(Some(f)) => some_name(table_loop(d, s5, ident_of(f))),
                                    }
                                },
                            }
                        },
                    }
                } else {
                    some_name(table_loop(d, s2, ident_of(first)))
                },
            }
        },
    }
}

pub proof fn lemma_create_name(d: Seq<u8>, st: TokSt)
    requires
        st_wf(d, st),
    ensures
        st_wf(d, create_name(d, st).1),
        rank(d, create_name(d, st).1) <= rank(d, st),
{
    lemma_next_tok(d, st);
    let (r1, s1) = next_tok(d, st);
    lemma_next_tok(d, s1);
    let (r2, s2) = next_tok(d, s1);
    lemma_next_tok(d, s2);
    let (r3, s3) = next_tok(d, s2);
    lemma_next_tok(d, s3);
    let (r4, s4) = next_tok(d, s3);
    lemma_next_tok(d, s4);
    let (r5, s5) = next_tok(d, s4);
    if let Ok(Some(first)) = r2 {
        lemma_table_loop(d, s2, ident_of(first));
    }
    if let Ok(Some(f)) = r5 {
        lemma_table_loop(d, s5, ident_of(f));
    }
}

/// After `CREATE`: the name of the table a `CREATE TABLE` statement makes.
pub fn read_create_table_name(tok: &mut Tokenizer) -> (r: Result<Option<String>, SqlError>)
    requires
        old(tok).wf(),
    ensures
        final(tok).wf(),
        final(tok).data() == old(tok).data(),
        ({
            let (sr, s) = create_name(old(tok).data(), old(tok).st());
            &&& final(tok).st() == s
            &&& match r {
                Ok(Some(n)) => sr == Ok::<Option<Seq<char>>, SqlError>(Some(n@)),
                Ok(None) => sr == Ok::<Option<Seq<char>>, SqlError>(None),
                Err(e) => sr == Err::<Option<Seq<char>>, SqlError>(e),
            }
        }),
{
    let ghost d = tok.data();
    proof {
        lemma_next_tok(d, tok.st());
    }
    let t = match tok.next_token() {
        Ok(t) => t,
        Err(e) => return Err(e),
    };
    if !token_is_kw(&t, "TABLE") {
        return Ok(None);
    }
    proof {
        lemma_next_tok(d, tok.st());
    }
    let mut first = match tok.next_token() {
        Ok(Some(f)) => f,
        Ok(None) => return Ok(None),
        Err(e) => return Err(e),
    };
    let maybe_if = Some(first);
    if token_is_kw(&maybe_if, "IF") {
        proof {
            lemma_next_tok(d, tok.st());
        }
        match tok.next_token() {
            Ok(_) => {},
            Err(e) => return Err(e),
        }
        proof {
            lemma_next_tok(d, tok.st());
        }
        match tok.next_token() {
            Ok(_) => {},
            Err(e) => return Err(e),
        }
        proof {
            lemma_next_tok(d, tok.st());
        }
        first = match tok.next_token() {
            Ok(Some(f)) => f,
            Ok(None) => return Ok(None),
            Err(e) => return Err(e),
        };
    } else {
        first = match maybe_if {
            Some(f) => f,
            None => return Ok(None),
        };
    }
    match table_from_token(tok, &first) {
        Ok(n) => Ok(Some(n)),
        Err(e) => Err(e),
    }
}

/// Skips to the `(` that opens a column list: `true` when found, `false`
/// at a `;` or the end of the input.
pub open spec fn seek_lparen(d: Seq<u8>, st: TokSt) -> (Result<bool, SqlError>, TokSt)
    decreases rank(d, st),
{
    if !st_wf(d, st) {
        (Ok(false), st)
    } else {
        let (r, s1) = next_tok(d, st);
        proof {
            lemma_next_tok(d, st);
        }
        match r {
            Err(e) => (Err(e), s1),
            Ok(Some(TokenOf::LParen)) => (Ok(true), s1),
            Ok(Some(TokenOf::Semi)) => (Ok(false), s1),
            Ok(None) => (Ok(false), s1),
            Ok(Some(_)) => seek_lparen(d, s1),
        }
    }
}

pub proof fn lemma_seek_lparen(d: Seq<u8>, st: TokSt)
    requires
        st_wf(d, st),
    ensures
        st_wf(d, seek_lparen(d, st).1),
        rank(d, seek_lparen(d, st).1) <= rank(d, st),
        seek_lparen(d, st).1.pos >= st.pos,
        seek_lparen(d, st).0 == Ok::<bool, SqlError>(true) ==> seek_lparen(d, st).1.pos > 0
            && seek_lparen(d, st).1.peeked is None,
    decreases rank(d, st),
{
    lemma_next_tok(d, st);
    lemma_lex(d, st.pos);
    let (r, s1) = next_tok(d, st);
    match r {
        Ok(Some(TokenOf::LParen)) => {},
        Ok(Some(TokenOf::Semi)) => {},
        Ok(Some(_)) => lemma_seek_lparen(d, s1),
        _ => {},
    }
}

/// Column names inside a `CREATE TABLE ( ... )` body at nesting `depth`:
/// the first word of each top-level definition that does not open a
/// constraint.
pub open spec fn body_loop(
    d: Seq<u8>,
    st: TokSt,
    depth: int,
    expect: bool,
    cols: Seq<Seq<char>>,
) -> (Result<Seq<Seq<char>>, SqlError>, TokSt)
    decreases rank(d, st),
{
    if !st_wf(d, st) {
        (Ok(cols), st)
    } else {
        let (r, s1) = next_tok(d, st);
        proof {
            lemma_next_tok(d, st);
        }
        match r {
            Err(e) => (Err(e), s1),
            Ok(None) => (Ok(cols), s1),
            Ok(Some(t)) => match t {
                TokenOf::LParen => body_loop(d, s1, depth + 1, expect, cols),
                TokenOf::RParen => if depth - 1 == 0 {
                    (Ok(cols), s1)
                } else {
                    body_loop(d, s1, depth - 1, expect, cols)
                },
                TokenOf::Comma => if depth == 1 {
                    body_loop(d, s1, depth, true, cols)
                } else {
                    body_loop(d, s1, depth, expect, cols)
                },
                TokenOf::Semi => body_loop(d, s1, depth, expect, cols),
                TokenOf::Ident(w) => {
                    let (e2, c2) = name_step(depth, expect, cols, w);
                    body_loop(d, s1, depth, e2, c2)
                },
                TokenOf::Word(w) => {
                    let (e2, c2) = name_step(depth, expect, cols, w);
                    body_loop(d, s1, depth, e2, c2)
                },
                TokenOf::Str(w) => {
                    let (e2, c2) = name_step(depth, expect, cols, w);
                    body_loop(d, s1, depth, e2, c2)
                },
            },
        }
    }
}

/// One word-like token inside a `CREATE TABLE` body: at the top level,
/// right after a comma (or the opening parenthesis), it names a column
/// unless it opens a constraint.
pub open spec fn name_step(depth: int, expect: bool, cols: Seq<Seq<char>>, w: Seq<char>) -> (bool, Seq<Seq<char>>) {
    if depth == 1 && expect {
        (
            false,
            if is_constraint_kw(w) {
                cols
            } else {
                cols.push(ident_text(w))
            },
        )
    } else {
        (expect, cols)
    }
}

/// The words that open a table constraint rather than a column in a
/// `CREATE TABLE` body, lower-cased.
pub open spec fn constraint_words() -> Set<Seq<char>> {
    set![
        "primary"@,
        "unique"@,
        "key"@,
        "index"@,
        "constraint"@,
        "foreign"@,
        "check"@,
        "fulltext"@,
        "spatial"@,
    ]
}

proof fn lemma_lower_literal(w: Seq<char>, upper: Seq<char>, lower: Seq<char>)
    requires
        ascii_lower_chars(upper) == lower,
    ensures
        ci_eq(w, upper) <==> ascii_lower_chars(w) == lower,
{
    crate::text::lemma_ci_eq_is_lower_eq(w, upper);
}

/// A top-level item of a `CREATE TABLE` body adds a column exactly when
/// its first word is not a constraint keyword (in any ASCII case): then the
/// column is the name that word spells, else the columns stay as they are.
pub proof fn law_constraint_items_add_no_column(cols: Seq<Seq<char>>, w: Seq<char>)
    ensures
        is_constraint_kw(w) <==> constraint_words().contains(ascii_lower_chars(w)),
        name_step(1, true, cols, w) == (
            false,
            if constraint_words().contains(ascii_lower_chars(w)) {
                cols
            } else {
                cols.push(ident_text(w))
            },
        ),
{
    reveal_strlit("PRIMARY");
    reveal_strlit("primary");
    reveal_strlit("UNIQUE");
    reveal_strlit("unique");
    reveal_strlit("KEY");
    reveal_strlit("key");
    reveal_strlit("INDEX");
    reveal_strlit("index");
    reveal_strlit("CONSTRAINT");
    reveal_strlit("constraint");
    reveal_strlit("FOREIGN");
    reveal_strlit("foreign");
    reveal_strlit("CHECK");
    reveal_strlit("check");
    reveal_strlit("FULLTEXT");
    reveal_strlit("fulltext");
    reveal_strlit("SPATIAL");
    reveal_strlit("spatial");
    assert(ascii_lower_chars("PRIMARY"@) =~= "primary"@);
    assert(ascii_lower_chars("UNIQUE"@) =~= "unique"@);
    assert(ascii_lower_chars("KEY"@) =~= "key"@);
    assert(ascii_lower_chars("INDEX"@) =~= "index"@);
    assert(ascii_lower_chars("CONSTRAINT"@) =~= "constraint"@);
    assert(ascii_lower_chars("FOREIGN"@) =~= "foreign"@);
    assert(ascii_lower_chars("CHECK"@) =~= "check"@);
    assert(ascii_lower_chars("FULLTEXT"@) =~= "fulltext"@);
    assert(ascii_lower_chars("SPATIAL"@) =~= "spatial"@);
    lemma_lower_literal(w, "PRIMARY"@, "primary"@);
    lemma_lower_literal(w, "UNIQUE"@, "unique"@);
    lemma_lower_literal(w, "KEY"@, "key"@);
    lemma_lower_literal(w, "INDEX"@, "index"@);
    lemma_lower_literal(w, "CONSTRAINT"@, "constraint"@);
    lemma_lower_literal(w, "FOREIGN"@, "foreign"@);
    lemma_lower_literal(w, "CHECK"@, "check"@);
    lemma_lower_literal(w, "FULLTEXT"@, "fulltext"@);
    lemma_lower_literal(w, "SPATIAL"@, "spatial"@);
}

/// A field spelled by one bare word reads as that word, except the word
/// `NULL` in any ASCII case, which reads as the empty value.
pub proof fn law_bare_null_is_empty(w: Seq<char>)
    ensures
        field_value(seq![TokenOf::Word(w)]) == (if ascii_lower_chars(w) == "null"@ {
            Seq::<char>::empty()
        } else {
            w
        }),
{
    reveal_strlit("NULL");
    reveal_strlit("null");
    assert(ascii_lower_chars("NULL"@) =~= "null"@);
    lemma_lower_literal(w, "NULL"@, "null"@);
    let ts = seq![TokenOf::Word(w)];
    assert(ts.drop_last() =~= Seq::<TokV>::empty());
    assert(last_str(ts) is None) by {
        reveal_with_fuel(last_str, 2);
    }
}

pub proof fn lemma_body_loop(d: Seq<u8>, st: TokSt, depth: int, expect: bool, cols: Seq<Seq<char>>)
    requires
        st_wf(d, st),
    ensures
        st_wf(d, body_loop(d, st, depth, expect, cols).1),
        rank(d, body_loop(d, st, depth, expect, cols).1) <= rank(d, st),
    decreases rank(d, st),
{
    lemma_next_tok(d, st);
    let (r, s1) = next_tok(d, st);
    match r {
        Ok(Some(t)) => match t {
            TokenOf::LParen => lemma_body_loop(d, s1, depth + 1, expect, cols),
            TokenOf::RParen => if depth - 1 != 0 {
                lemma_body_loop(d, s1, depth - 1, expect, cols)
            },
            TokenOf::Comma => if depth == 1 {
                lemma_body_loop(d, s1, depth, true, cols)
            } else {
                lemma_body_loop(d, s1, depth, expect, cols)
            },
            TokenOf::Semi => lemma_body_loop(d, s1, depth, expect, cols),
            TokenOf::Ident(w) => {
                let (e2, c2) = name_step(depth, expect, cols, w);
                lemma_body_loop(d, s1, depth, e2, c2)
            },
            TokenOf::Word(w) => {
                let (e2, c2) = name_step(depth, expect, cols, w);
                lemma_body_loop(d, s1, depth, e2, c2)
            },
            TokenOf::Str(w) => {
                let (e2, c2) = name_step(depth, expect, cols, w);
                lemma_body_loop(d, s1, depth, e2, c2)
            },
        },
        _ => {},
    }
}

/// The column names of a `CREATE TABLE` body, or `None` when no `(`
/// comes before the next `;` or the end of the input.
pub open spec fn create_body(d: Seq<u8>, st: TokSt) -> (Result<Option<Seq<Seq<char>>>, SqlError>, TokSt) {
    let (r, s1) = seek_lparen(d, st);
    match r {
        Err(e) => (Err(e), s1),
        Ok(false) => (Ok(None), s1),
        Ok(true) => {
            let (b, s2) = body_loop(d, s1, 1, true, Seq::empty());
            (
                match b {
                    Ok(c) => Ok(Some(c)),
                    Err(e) => Err(e),
                },
                s2,
            )
        },
    }
}

pub proof fn lemma_create_body(d: Seq<u8>, st: TokSt)
    requires
        st_wf(d, st),
    ensures
        st_wf(d, create_body(d, st).1),
        rank(d, create_body(d, st).1) <= rank(d, st),
{
    lemma_seek_lparen(d, st);
    let (r, s1) = seek_lparen(d, st);
    lemma_body_loop(d, s1, 1, true, Seq::empty());
}

pub open spec fn peek_count(st: TokSt) -> int {
    if st.peeked is Some {
        1
    } else {
        0
    }
}

/// The column names declared by a `CREATE TABLE` body.
pub fn parse_create_body(tok: &mut Tokenizer) -> (r: Result<Option<Vec<String>>, SqlError>)
    requires
        old(tok).wf(),
    ensures
        final(tok).wf(),
        final(tok).data() == old(tok).data(),
        ({
            let (sr, s) = create_body(old(tok).data(), old(tok).st());
            &&& final(tok).st() == s
            &&& match r {
                Ok(Some(c)) => sr == Ok::<Option<Seq<Seq<char>>>, SqlError>(Some(c.deep_view())),
                Ok(None) => sr == Ok::<Option<Seq<Seq<char>>>, SqlError>(None),
                Err(e) => sr == Err::<Option<Seq<Seq<char>>>, SqlError>(e),
            }
        }),
{
    let ghost d = tok.data();
    let ghost s0 = tok.st();
    loop
        invariant_except_break
            tok.wf(),
            tok.data() == d,
            d == old(tok).data(),
            s0 == old(tok).st(),
            seek_lparen(d, tok.st()) == seek_lparen(d, s0),
        ensures
            tok.wf(),
            tok.data() == d,
            d == old(tok).data(),
            s0 == old(tok).st(),
            seek_lparen(d, s0) == (Ok::<bool, SqlError>(true), tok.st()),
        decreases rank(d, tok.st()),
    {
        proof {
            lemma_next_tok(d, tok.st());
        }
        match tok.next_token() {
            Err(e) => return Err(e),
            Ok(Some(TokenOf::LParen)) => break,
            Ok(Some(TokenOf::Semi)) => return Ok(None),
            Ok(None) => return Ok(None),
            Ok(Some(_)) => {},
        }
    }
    proof {
        lemma_seek_lparen(d, s0);
    }
    let ghost s1 = tok.st();
    let mut cols: Vec<String> = Vec::new();
    let mut depth: usize = 1;
    let mut expect = true;
    assert(cols.deep_view() =~= Seq::<Seq<char>>::empty());
    loop
        invariant
            tok.wf(),
            tok.data() == d,
            d == old(tok).data(),
            s0 == old(tok).st(),
            seek_lparen(d, s0) == (Ok::<bool, SqlError>(true), s1),
            1 <= depth,
            depth + peek_count(tok.st()) <= tok.st().pos,
            body_loop(d, tok.st(), depth as int, expect, cols.deep_view()) == body_loop(
                d,
                s1,
                1,
                true,
                Seq::empty(),
            ),
        decreases rank(d, tok.st()),
    {
        let ghost st = tok.st();
        proof {
            lemma_next_tok(d, st);
            lemma_lex(d, st.pos);
        }
        let t = match tok.next_token() {
            Err(e) => return Err(e),
            Ok(None) => return Ok(Some(cols)),
            Ok(Some(t)) => t,
        };
        match t {
            TokenOf::LParen => {
                depth += 1;
            },
            TokenOf::RParen => {
                depth -= 1;
                if depth == 0 {
                    return Ok(Some(cols));
                }
            },
            TokenOf::Comma => {
                if depth == 1 {
                    expect = true;
                }
            },
            TokenOf::Semi => {},
            TokenOf::Ident(w) | TokenOf::Word(w) | TokenOf::Str(w) => {
                if depth == 1 && expect {
                    expect = false;
                    if !constraint_keyword(w.as_str()) {
                        let ghost before = cols.deep_view();
                        cols.push(ident_text_of(&w));
                        assert(cols.deep_view() =~= before.push(ident_text(w@)));
                    }
                }
            },
        }
    }
}

/// Column names in a parenthesised list, up to the closing `)`.
pub open spec fn paren_cols(d: Seq<u8>, st: TokSt, cols: Seq<Seq<char>>) -> (Result<Seq<Seq<char>>, SqlError>, TokSt)
    decreases rank(d, st),
{
    if !st_wf(d, st) {
        (Ok(cols), st)
    } else {
        let (r, s1) = next_tok(d, st);
        proof {
            lemma_next_tok(d, st);
        }
        match r {
            Err(e) => (Err(e), s1),
            Ok(None) => (Ok(cols), s1),
            Ok(Some(t)) => match t {
                TokenOf::RParen => (Ok(cols), s1),
                TokenOf::Ident(w) => paren_cols(d, s1, cols.push(ident_text(w))),
                TokenOf::Word(w) => paren_cols(d, s1, cols.push(ident_text(w))),
                TokenOf::Str(w) => paren_cols(d, s1, cols.push(ident_text(w))),
                _ => paren_cols(d, s1, cols),
            },
        }
    }
}

pub proof fn lemma_paren_cols(d: Seq<u8>, st: TokSt, cols: Seq<Seq<char>>)
    requires
        st_wf(d, st),
    ensures
        st_wf(d, paren_cols(d, st, cols).1),
        rank(d, paren_cols(d, st, cols).1) <= rank(d, st),
    decreases rank(d, st),
{
    lemma_next_tok(d, st);
    let (r, s1) = next_tok(d, st);
    match r {
        Ok(Some(t)) => match t {
            TokenOf::RParen => {},
            TokenOf::Ident(w) => lemma_paren_cols(d, s1, cols.push(ident_text(w))),
            TokenOf::Word(w) => lemma_paren_cols(d, s1, cols.push(ident_text(w))),
            TokenOf::Str(w) => lemma_paren_cols(d, s1, cols.push(ident_text(w))),
            _ => lemma_paren_cols(d, s1, cols),
        },
        _ => {},
    }
}

/// After `INSERT INTO name`: reads up to `VALUES` (or a `;`), keeping the
/// last non-empty parenthesised column list.
pub open spec fn values_scan(d: Seq<u8>, st: TokSt, collist: Option<Seq<Seq<char>>>) -> (
    Result<Option<Seq<Seq<char>>>, SqlError>,
    TokSt,
)
    decreases rank(d, st),
{
    if !st_wf(d, st) {
        (Ok(collist), st)
    } else {
        let (r, s1) = next_tok(d, st);
        proof {
            lemma_next_tok(d, st);
        }
        match r {
            Err(e) => (Err(e), s1),
            Ok(None) => (Ok(collist), s1),
            Ok(Some(t)) => match t {
                TokenOf::LParen => {
                    let (pc, s2) = paren_cols(d, s1, Seq::empty());
                    proof {
                        lemma_paren_cols(d, s1, Seq::empty());
                    }
                    match pc {
                        Err(e) => (Err(e), s2),
                        Ok(cols) => values_scan(
                            d,
                            s2,
                            if cols.len() > 0 {
                                Some(cols)
                            } else {
                                collist
                            },
                        ),
                    }
                },
                TokenOf::Word(w) => if ci_eq(w, "VALUES"@) {
                    (Ok(collist), s1)
                } else {
                    values_scan(d, s1, collist)
                },
                TokenOf::Semi => (Ok(collist), s1),
                _ => values_scan(d, s1, collist),
            },
        }
    }
}

pub proof fn lemma_values_scan(d: Seq<u8>, st: TokSt, collist: Option<Seq<Seq<char>>>)
    requires
        st_wf(d, st),
    ensures
        st_wf(d, values_scan(d, st, collist).1),
        rank(d, values_scan(d, st, collist).1) <= rank(d, st),
    decreases rank(d, st),
{
    lemma_next_tok(d, st);
    let (r, s1) = next_tok(d, st);
    match r {
        Ok(Some(t)) => match t {
            TokenOf::LParen => {
                lemma_paren_cols(d, s1, Seq::empty());
                let (pc, s2) = paren_cols(d, s1, Seq::empty());
                match pc {
                    Ok(cols) => lemma_values_scan(
                        d,
                        s2,
                        if cols.len() > 0 {
                            Some(cols)
                        } else {
                            collist
                        },
                    ),
                    _ => {},
                }
            },
            TokenOf::Word(w) => if !ci_eq(w, "VALUES"@) {
                lemma_values_scan(d, s1, collist)
            },
            TokenOf::Semi => {},
            _ => lemma_values_scan(d, s1, collist),
        },
        _ => {},
    }
}

pub open spec fn opt_cols_view(c: Option<Vec<String>>) -> Option<Seq<Seq<char>>> {
    match c {
        Some(v) => Some(v.deep_view()),
        None => None,
    }
}

/// After `INSERT INTO name`: the explicit column list, if any, up to `VALUES`.
pub fn read_until_values(tok: &mut Tokenizer) -> (r: Result<Option<Vec<String>>, SqlError>)
    requires
        old(tok).wf(),
    ensures
        final(tok).wf(),
        final(tok).data() == old(tok).data(),
        ({
            let (sr, s) = values_scan(old(tok).data(), old(tok).st(), None);
            &&& final(tok).st() == s
            &&& match r {
                Ok(c) => sr == Ok::<Option<Seq<Seq<char>>>, SqlError>(opt_cols_view(c)),
                Err(e) => sr == Err::<Option<Seq<Seq<char>>>, SqlError>(e),
            }
        }),
{
    let ghost d = tok.data();
    let ghost s0 = tok.st();
    let mut collist: Option<Vec<String>> = None;
    loop
        invariant
            tok.wf(),
            tok.data() == d,
            d == old(tok).data(),
            s0 == old(tok).st(),
            values_scan(d, tok.st(), opt_cols_view(collist)) == values_scan(d, s0, None),
        decreases rank(d, tok.st()),
    {
        let ghost st = tok.st();
        proof {
            lemma_next_tok(d, st);
        }
        let t = match tok.next_token() {
            Err(e) => return Err(e),
            Ok(None) => return Ok(collist),
            Ok(Some(t)) => t,
        };
        match t {
            TokenOf::LParen => {
                let ghost s1 = tok.st();
                let mut cols: Vec<String> = Vec::new();
                assert(cols.deep_view() =~= Seq::<Seq<char>>::empty());
                loop
                    invariant_except_break
                        tok.wf(),
                        tok.data() == d,
                        d == old(tok).data(),
                        s0 == old(tok).st(),
                        st_wf(d, st),
                        next_tok(d, st) == (Ok::<Option<TokV>, SqlError>(Some(TokenOf::LParen)), s1),
                        values_scan(d, st, opt_cols_view(collist)) == values_scan(d, s0, None),
                        st_wf(d, s1),
                        rank(d, s1) < rank(d, st),
                        rank(d, tok.st()) <= rank(d, s1),
                        paren_cols(d, tok.st(), cols.deep_view()) == paren_cols(d, s1, Seq::empty()),
                    ensures
                        tok.wf(),
                        tok.data() == d,
                        d == old(tok).data(),
                        paren_cols(d, s1, Seq::empty()) == (Ok::<Seq<Seq<char>>, SqlError>(cols.deep_view()), tok.st()),
                    decreases rank(d, tok.st()),
                {
                    let ghost si = tok.st();
                    proof {
                        lemma_next_tok(d, si);
                    }
                    let inner = match tok.next_token() {
                        Err(e) => return Err(e),
                        Ok(None) => break,
                        Ok(Some(t)) => t,
                    };
                    match inner {
                        TokenOf::RParen => break,
                        TokenOf::Ident(w) | TokenOf::Word(w) | TokenOf::Str(w) => {
                            let ghost before = cols.deep_view();
                            cols.push(ident_text_of(&w));
                            assert(cols.deep_view() =~= before.push(ident_text(w@)));
                        },
                        _ => {},
                    }
                }
                proof {
                    lemma_paren_cols(d, s1, Seq::empty());
                }
                if cols.len() > 0 {
                    collist = Some(cols);
                }
            },
            TokenOf::Word(w) => {
                if str_ci_eq(w.as_str(), "VALUES") {
                    return Ok(collist);
                }
            },
            TokenOf::Semi => return Ok(collist),
            _ => {},
        }
    }
}

/// The fields of a `VALUES` tuple whose `(` was taken, at nesting `depth`,
/// with `cur` the tokens of the field being read. Commas at the top level
/// separate fields; nested parentheses belong to the field.
pub open spec fn tuple_loop(
    d: Seq<u8>,
    st: TokSt,
    depth: int,
    cur: Seq<TokV>,
    fields: Seq<Seq<char>>,
) -> (Result<Seq<Seq<char>>, SqlError>, TokSt)
    decreases rank(d, st),
{
    if !st_wf(d, st) {
        (Ok(fields), st)
    } else {
        let (r, s1) = next_tok(d, st);
        proof {
            lemma_next_tok(d, st);
        }
        match r {
            Err(e) => (Err(e), s1),
            Ok(None) => (Err(SqlError::EofInTuple), s1),
            Ok(Some(t)) => match t {
                TokenOf::LParen => tuple_loop(d, s1, depth + 1, cur.push(t), fields),
                TokenOf::RParen => if depth == 1 {
                    (Ok(fields.push(field_value(cur))), s1)
                } else {
                    tuple_loop(d, s1, depth - 1, cur.push(t), fields)
                },
                TokenOf::Comma => if depth == 1 {
                    tuple_loop(d, s1, depth, Seq::empty(), fields.push(field_value(cur)))
                } else {
                    tuple_loop(d, s1, depth, cur.push(t), fields)
                },
                _ => tuple_loop(d, s1, depth, cur.push(t), fields),
            },
        }
    }
}

pub proof fn lemma_tuple_loop(d: Seq<u8>, st: TokSt, depth: int, cur: Seq<TokV>, fields: Seq<Seq<char>>)
    requires
        st_wf(d, st),
    ensures
        st_wf(d, tuple_loop(d, st, depth, cur, fields).1),
        rank(d, tuple_loop(d, st, depth, cur, fields).1) <= rank(d, st),
    decreases rank(d, st),
{
    lemma_next_tok(d, st);
    let (r, s1) = next_tok(d, st);
    match r {
        Ok(Some(t)) => match t {
            TokenOf::LParen => lemma_tuple_loop(d, s1, depth + 1, cur.push(t), fields),
            TokenOf::RParen => if depth != 1 {
                lemma_tuple_loop(d, s1, depth - 1, cur.push(t), fields)
            },
            TokenOf::Comma => if depth == 1 {
                lemma_tuple_loop(d, s1, depth, Seq::empty(), fields.push(field_value(cur)))
            } else {
                lemma_tuple_loop(d, s1, depth, cur.push(t), fields)
            },
            _ => lemma_tuple_loop(d, s1, depth, cur.push(t), fields),
        },
        _ => {},
    }
}

/// The fields of one `VALUES` tuple (see `tuple_loop`).
pub open spec fn tuple_fields(d: Seq<u8>, st: TokSt) -> (Result<Seq<Seq<char>>, SqlError>, TokSt) {
    tuple_loop(d, st, 1, Seq::empty(), Seq::empty())
}

pub open spec fn row_view(r: Result<Vec<String>, SqlError>) -> Result<Seq<Seq<char>>, SqlError> {
    match r {
        Ok(v) => Ok(v.deep_view()),
        Err(e) => Err(e),
    }
}

/// Reads one `VALUES` tuple at its true field width; the opening `(` was
/// already taken.
pub fn read_tuple_fields(tok: &mut Tokenizer) -> (r: Result<Vec<String>, SqlError>)
    requires
        old(tok).wf(),
        old(tok).st().pos > 0,
        old(tok).st().peeked is None,
    ensures
        final(tok).wf(),
        final(tok).data() == old(tok).data(),
        (row_view(r), final(tok).st()) == tuple_fields(old(tok).data(), old(tok).st()),
{
    let ghost d = tok.data();
    let ghost s0 = tok.st();
    let mut fields: Vec<String> = Vec::new();
    let mut cur: Vec<Token> = Vec::new();
    let mut depth: usize = 1;
    assert(fields.deep_view() =~= Seq::<Seq<char>>::empty());
    assert(toks_view(cur@) =~= Seq::<TokV>::empty());
    loop
        invariant
            tok.wf(),
            tok.data() == d,
            d == old(tok).data(),
            s0 == old(tok).st(),
            1 <= depth,
            depth + peek_count(tok.st()) <= tok.st().pos,
            tuple_loop(d, tok.st(), depth as int, toks_view(cur@), fields.deep_view())
                == tuple_fields(d, s0),
        decreases rank(d, tok.st()),
    {
        let ghost st = tok.st();
        proof {
            lemma_next_tok(d, st);
            lemma_lex(d, st.pos);
        }
        let t = match tok.next_token() {
            Err(e) => return Err(e),
            Ok(None) => return Err(SqlError::EofInTuple),
            Ok(Some(t)) => t,
        };
        let ghost tv = t@;
        match t {
            TokenOf::LParen => {
                depth += 1;
                let ghost before = toks_view(cur@);
                cur.push(t);
                assert(toks_view(cur@) =~= before.push(tv));
            },
            TokenOf::RParen => {
                if depth == 1 {
                    let ghost before = fields.deep_view();
                    fields.push(finalize_field(&cur));
                    assert(fields.deep_view() =~= before.push(field_value(toks_view(cur@))));
                    return Ok(fields);
                }
                depth -= 1;
                let ghost before = toks_view(cur@);
                cur.push(t);
                assert(toks_view(cur@) =~= before.push(tv));
            },
            TokenOf::Comma => {
                if depth == 1 {
                    let ghost before = fields.deep_view();
                    fields.push(finalize_field(&cur));
                    assert(fields.deep_view() =~= before.push(field_value(toks_view(cur@))));
                    cur = Vec::new();
                    assert(toks_view(cur@) =~= Seq::<TokV>::empty());
                } else {
                    let ghost before = toks_view(cur@);
                    cur.push(t);
                    assert(toks_view(cur@) =~= before.push(tv));
                }
            },
            _ => {
                let ghost before = toks_view(cur@);
                cur.push(t);
                assert(toks_view(cur@) =~= before.push(tv));
            },
        }
    }
}

/// The first `VALUES` tuple, read to infer how many columns there are.
pub open spec fn first_tuple(d: Seq<u8>, st: TokSt) -> (Result<Seq<Seq<char>>, SqlError>, TokSt) {
    let (r, s1) = seek_lparen(d, st);
    match r {
        Err(e) => (Err(e), s1),
        Ok(false) => (Err(SqlError::NoTupleToInfer), s1),
        Ok(true) => tuple_fields(d, s1),
    }
}

pub proof fn lemma_first_tuple(d: Seq<u8>, st: TokSt)
    requires
        st_wf(d, st),
    ensures
        st_wf(d, first_tuple(d, st).1),
        rank(d, first_tuple(d, st).1) <= rank(d, st),
{
    lemma_seek_lparen(d, st);
    let (r, s1) = seek_lparen(d, st);
    lemma_tuple_loop(d, s1, 1, Seq::empty(), Seq::empty());
}

/// Reads one `VALUES` tuple at its true width; its `(` is not yet taken.
pub fn read_first_tuple(tok: &mut Tokenizer) -> (r: Result<Vec<String>, SqlError>)
    requires
        old(tok).wf(),
    ensures
        final(tok).wf(),
        final(tok).data() == old(tok).data(),
        (row_view(r), final(tok).st()) == first_tuple(old(tok).data(), old(tok).st()),
{
    let ghost d = tok.data();
    let ghost s0 = tok.st();
    loop
        invariant_except_break
            tok.wf(),
            tok.data() == d,
            d == old(tok).data(),
            s0 == old(tok).st(),
            seek_lparen(d, tok.st()) == seek_lparen(d, s0),
        ensures
            tok.wf(),
            tok.data() == d,
            d == old(tok).data(),
            s0 == old(tok).st(),
            seek_lparen(d, s0) == (Ok::<bool, SqlError>(true), tok.st()),
        decreases rank(d, tok.st()),
    {
        proof {
            lemma_next_tok(d, tok.st());
        }
        match tok.next_token() {
            Err(e) => return Err(e),
            Ok(Some(TokenOf::LParen)) => break,
            Ok(Some(TokenOf::Semi)) => return Err(SqlError::NoTupleToInfer),
            Ok(None) => return Err(SqlError::NoTupleToInfer),
            Ok(Some(_)) => {},
        }
    }
    proof {
        lemma_seek_lparen(d, s0);
    }
    read_tuple_fields(tok)
}

// ----------------------------------------------------------------------
// the row stream
// ----------------------------------------------------------------------

/// The abstract state of a row stream.
pub struct RowsV {
    pub data: Seq<u8>,
    pub st: TokSt,
    pub target: Seq<char>,
    pub in_values: bool,
    pub pending: Option<Seq<Seq<char>>>,
}

pub open spec fn with_st(it: RowsV, st: TokSt, in_values: bool) -> RowsV {
    RowsV { data: it.data, st, target: it.target, in_values, pending: it.pending }
}

/// After `INSERT` outside a target statement, the loop that looks for
/// `VALUES`: the stream enters the tuples when `table` is the target,
/// and skips the statement otherwise.
pub open spec fn values_kw_loop(d: Seq<u8>, st: TokSt, table: Seq<char>, target: Seq<char>) -> (
    Result<bool, SqlError>,
    TokSt,
)
    decreases rank(d, st),
{
    if !st_wf(d, st) {
        (Ok(false), st)
    } else {
        let (r, s1) = next_tok(d, st);
        proof {
            lemma_next_tok(d, st);
        }
        match r {
            Err(e) => (Err(e), s1),
            Ok(None) => (Ok(false), s1),
            Ok(Some(TokenOf::Semi)) => (Ok(false), s1),
            Ok(Some(TokenOf::Word(w))) => if ci_eq(w, "VALUES"@) {
                if ci_eq(table, target) {
                    (Ok(true), s1)
                } else {
                    let (sr, s2) = skip_semi(d, s1);
                    match sr {
                        Err(e) => (Err(e), s2),
                        Ok(_) => (Ok(false), s2),
                    }
                }
            } else {
                values_kw_loop(d, s1, table, target)
            },
            Ok(Some(_)) => values_kw_loop(d, s1, table, target),
        }
    }
}

pub proof fn lemma_values_kw_loop(d: Seq<u8>, st: TokSt, table: Seq<char>, target: Seq<char>)
    requires
        st_wf(d, st),
    ensures
        st_wf(d, values_kw_loop(d, st, table, target).1),
        rank(d, values_kw_loop(d, st, table, target).1) <= rank(d, st),
    decreases rank(d, st),
{
    lemma_next_tok(d, st);
    let (r, s1) = next_tok(d, st);
    match r {
        Ok(Some(TokenOf::Semi)) => {},
        Ok(Some(TokenOf::Word(w))) => if ci_eq(w, "VALUES"@) {
            lemma_skip_semi(d, s1);
        } else {
            lemma_values_kw_loop(d, s1, table, target);
        },
        Ok(Some(_)) => lemma_values_kw_loop(d, s1, table, target),
        _ => {},
    }
}

/// After an `INSERT` met between statements: whether the stream now
/// reads the tuples of the target table.
pub open spec fn enter_values(d: Seq<u8>, st: TokSt, target: Seq<char>) -> (Result<bool, SqlError>, TokSt) {
    let (r1, s1) = next_tok(d, st);
    match r1 {
        Err(e) => (Err(e), s1),
        Ok(t) => if !is_word_kw(t, "INTO"@) {
            (Ok(false), s1)
        } else {
            let (r2, s2) = next_tok(d, s1);
            match r2 {
                Err(e) => (Err(e), s2),
                Ok(None) => (Ok(false), s2),
                Ok(Some(first)) => {
                    let (tr, s3) = table_loop(d, s2, ident_of(first));
                    match tr {
                        Err(e) => (Err(e), s3),
                        Ok(table) => values_kw_loop(d, s3, table, target),
                    }
                },
            }
        },
    }
}

pub proof fn lemma_enter_values(d: Seq<u8>, st: TokSt, target: Seq<char>)
    requires
        st_wf(d, st),
    ensures
        st_wf(d, enter_values(d, st, target).1),
        rank(d, enter_values(d, st, target).1) <= rank(d, st),
{
    lemma_next_tok(d, st);
    let (r1, s1) = next_tok(d, st);
    lemma_next_tok(d, s1);
    let (r2, s2) = next_tok(d, s1);
    if let Ok(Some(first)) = r2 {
        lemma_table_loop(d, s2, ident_of(first));
        let (tr, s3) = table_loop(d, s2, ident_of(first));
        if let Ok(table) = tr {
            lemma_values_kw_loop(d, s3, table, target);
        }
    }
}

/// The next row of the stream (ignoring a pending row): inside the
/// target's `VALUES` it reads the next tuple; between statements it looks
/// for the next `INSERT INTO` the target.
pub open spec fn row_next(it: RowsV) -> (Option<Result<Seq<Seq<char>>, SqlError>>, RowsV)
    decreases rank(it.data, it.st),
{
    let d = it.data;
    if !st_wf(d, it.st) {
        (None, it)
    } else {
        let (r, s1) = next_tok(d, it.st);
        proof {
            lemma_next_tok(d, it.st);
        }
        let it1 = with_st(it, s1, it.in_values);
        if it.in_values {
            match r {
                Err(e) => (Some(Err(e)), it1),
                Ok(None) => (None, it1),
                Ok(Some(TokenOf::LParen)) => {
                    let (f, s2) = tuple_fields(d, s1);
                    (Some(f), with_st(it, s2, true))
                },
                Ok(Some(TokenOf::Semi)) => row_next(with_st(it, s1, false)),
                Ok(Some(_)) => row_next(it1),
            }
        } else {
            match r {
                Err(e) => (Some(Err(e)), it1),
                Ok(None) => (None, it1),
                Ok(Some(TokenOf::Word(w))) => if ci_eq(w, "INSERT"@) {
                    let (er, s2) = enter_values(d, s1, it.target);
                    proof {
                        lemma_enter_values(d, s1, it.target);
                    }
                    match er {
                        Err(e) => (Some(Err(e)), with_st(it, s2, false)),
                        Ok(iv) => row_next(with_st(it, s2, iv)),
                    }
                } else {
                    row_next(it1)
                },
                Ok(Some(_)) => row_next(it1),
            }
        }
    }
}

/// The next row of the stream: a pending row first.
pub open spec fn rows_next(it: RowsV) -> (Option<Result<Seq<Seq<char>>, SqlError>>, RowsV) {
    match it.pending {
        Some(row) => (
            Some(Ok(row)),
            RowsV { data: it.data, st: it.st, target: it.target, in_values: it.in_values, pending: None },
        ),
        None => row_next(it),
    }
}

proof fn lemma_row_next_end(it: RowsV)
    ensures
        row_next(it).0 is None ==> {
            &&& row_next(it).1.data == it.data
            &&& row_next(it).1.target == it.target
            &&& row_next(it).1.pending == it.pending
            &&& if st_wf(it.data, it.st) {
                row_next(it).1.st == (TokSt { peeked: None, pos: it.data.len() as int })
            } else {
                row_next(it).1 == it
            }
        },
    decreases rank(it.data, it.st),
{
    let d = it.data;
    if st_wf(d, it.st) {
        lemma_next_tok(d, it.st);
        let (r, s1) = next_tok(d, it.st);
        if it.st.peeked is None {
            lemma_lex(d, it.st.pos);
        }
        let it1 = with_st(it, s1, it.in_values);
        if it.in_values {
            match r {
                Ok(Some(TokenOf::Semi)) => lemma_row_next_end(with_st(it, s1, false)),
                Ok(Some(TokenOf::LParen)) => {},
                Ok(Some(_)) => lemma_row_next_end(it1),
                _ => {},
            }
        } else {
            match r {
                Ok(Some(TokenOf::Word(w))) => if ci_eq(w, "INSERT"@) {
                    lemma_enter_values(d, s1, it.target);
                    let (er, s2) = enter_values(d, s1, it.target);
                    match er {
                        Ok(iv) => lemma_row_next_end(with_st(it, s2, iv)),
                        Err(_) => {},
                    }
                } else {
                    lemma_row_next_end(it1);
                },
                Ok(Some(_)) => lemma_row_next_end(it1),
                _ => {},
            }
        }
    }
}

/// A row stream that has ended stays ended: once `next` gives nothing,
/// it gives nothing again.
pub proof fn law_row_stream_stays_ended(it: RowsV)
    ensures
        rows_next(it).0 is None ==> rows_next(rows_next(it).1).0 is None,
{
    if it.pending is None {
        lemma_row_next_end(it);
        let it2 = rows_next(it).1;
        if rows_next(it).0 is None && st_wf(it.data, it.st) {
            assert(it2.st == (TokSt { peeked: None, pos: it.data.len() as int }));
            assert(st_wf(it2.data, it2.st));
            assert(next_tok(it2.data, it2.st).0 == Ok::<Option<TokV>, SqlError>(None));
        }
    }
}

/// Streaming reader over the `INSERT INTO <target> VALUES (...)` tuples of
/// a dump; `pending` holds a first tuple read early to infer the columns.
pub struct SqlRowIter {
    tok: Tokenizer,
    target: String,
    in_values: bool,
    pending: Option<Vec<String>>,
}

pub open spec fn opt_row_view(r: Option<Result<Vec<String>, SqlError>>) -> Option<Result<Seq<Seq<char>>, SqlError>> {
    match r {
        Some(r) => Some(row_view(r)),
        None => None,
    }
}

impl SqlRowIter {
    /// Its abstract state.
    pub closed spec fn view_rows(&self) -> RowsV {
        RowsV {
            data: self.tok.data(),
            st: self.tok.st(),
            target: self.target@,
            in_values: self.in_values,
            pending: opt_cols_view(self.pending),
        }
    }

    pub closed spec fn wf(&self) -> bool {
        self.tok.wf()
    }

    /// A stream with no input left; it yields nothing.
    pub fn empty(target: String) -> (it: SqlRowIter)
        ensures
            it.wf(),
            it.view_rows() == empty_rows(target@),
    {
        SqlRowIter { tok: Tokenizer::empty(), target, in_values: false, pending: None }
    }

    fn enter_values_if_target(&mut self) -> (r: Result<(), SqlError>)
        requires
            old(self).wf(),
            !old(self).in_values,
        ensures
            final(self).wf(),
            final(self).tok.data() == old(self).tok.data(),
            final(self).target == old(self).target,
            final(self).pending == old(self).pending,
            ({
                let (er, s) = enter_values(old(self).tok.data(), old(self).tok.st(), old(self).target@);
                &&& final(self).tok.st() == s
                &&& match er {
                    Ok(iv) => r is Ok && final(self).in_values == iv,
                    Err(e) => r == Err::<(), SqlError>(e) && final(self).in_values == old(self).in_values,
                }
            }),
    {
        let ghost d = self.tok.data();
        proof {
            lemma_next_tok(d, self.tok.st());
        }
        let t = match self.tok.next_token() {
            Ok(t) => t,
            Err(e) => return Err(e),
        };
        if !token_is_kw(&t, "INTO") {
            return Ok(());
        }
        proof {
            lemma_next_tok(d, self.tok.st());
        }
        let first = match self.tok.next_token() {
            Ok(Some(f)) => f,
            Ok(None) => return Ok(()),
            Err(e) => return Err(e),
        };
        let table = match table_from_token(&mut self.tok, &first) {
            Ok(n) => n,
            Err(e) => return Err(e),
        };
        let ghost s3 = self.tok.st();
        loop
            invariant
                self.tok.wf(),
                self.tok.data() == d,
                d == old(self).tok.data(),
                self.target == old(self).target,
                self.pending == old(self).pending,
                !self.in_values,
                !old(self).in_values,
                values_kw_loop(d, self.tok.st(), table@, self.target@) == values_kw_loop(
                    d,
                    s3,
                    table@,
                    self.target@,
                ),
                enter_values(d, old(self).tok.st(), old(self).target@) == values_kw_loop(
                    d,
                    s3,
                    table@,
                    self.target@,
                ),
            decreases rank(d, self.tok.st()),
        {
            proof {
                lemma_next_tok(d, self.tok.st());
            }
            match self.tok.next_token() {
                Err(e) => return Err(e),
                Ok(None) => return Ok(()),
                Ok(Some(TokenOf::Semi)) => return Ok(()),
                Ok(Some(TokenOf::Word(w))) => {
                    if str_ci_eq(w.as_str(), "VALUES") {
                        if str_ci_eq(table.as_str(), self.target.as_str()) {
                            self.in_values = true;
                            return Ok(());
                        } else {
                            return skip_to_semi(&mut self.tok);
                        }
                    }
                },
                Ok(Some(_)) => {},
            }
        }
    }

    /// The next row: `None` at the end of the input, `Some(Err(..))` when
    /// the input is malformed, otherwise the fields of the next tuple.
    pub fn next(&mut self) -> (r: Option<Result<Vec<String>, SqlError>>)
        requires
            old(self).wf(),
        ensures
            final(self).wf(),
            (opt_row_view(r), final(self).view_rows()) == rows_next(old(self).view_rows()),
    {
        if let Some(row) = self.pending.take() {
            return Some(Ok(row));
        }
        let ghost d = self.tok.data();
        let ghost v0 = self.view_rows();
        loop
            invariant
                self.wf(),
                self.tok.data() == d,
                self.pending is None,
                self.target == old(self).target,
                v0 == old(self).view_rows(),
                v0.pending is None,
                row_next(self.view_rows()) == row_next(v0),
            decreases rank(d, self.tok.st()),
        {
            let ghost st = self.tok.st();
            proof {
                lemma_next_tok(d, st);
            }
            if self.in_values {
                match self.tok.next_token() {
                    Err(e) => return Some(Err(e)),
                    Ok(None) => return None,
                    Ok(Some(TokenOf::LParen)) => {
                        proof {
                            lemma_lex(d, st.pos);
                        }
                        return Some(read_tuple_fields(&mut self.tok));
                    },
                    Ok(Some(TokenOf::Semi)) => {
                        self.in_values = false;
                    },
                    Ok(Some(_)) => {},
                }
            } else {
                match self.tok.next_token() {
                    Err(e) => return Some(Err(e)),
                    Ok(None) => return None,
                    Ok(Some(TokenOf::Word(w))) => {
                        if str_ci_eq(w.as_str(), "INSERT") {
                            proof {
                                lemma_enter_values(d, self.tok.st(), self.target@);
                            }
                            match self.enter_values_if_target() {
                                Ok(()) => {},
                                Err(e) => return Some(Err(e)),
                            }
                        }
                    },
                    Ok(Some(_)) => {},
                }
            }
        }
    }
}

/// A stream over no input.
pub open spec fn empty_rows(target: Seq<char>) -> RowsV {
    RowsV {
        data: Seq::empty(),
        st: TokSt { peeked: None, pos: 0 },
        target,
        in_values: false,
        pending: None,
    }
}

// ----------------------------------------------------------------------
// opening a dump
// ----------------------------------------------------------------------

/// Column lists of the `CREATE TABLE` statements seen so far, keyed by the
/// lower-cased table name, in the order the tables were first created.
pub type ColsMap = Seq<(Seq<char>, Seq<Seq<char>>)>;

/// Index of the entry for key `k` at or after `i`, or -1.
pub open spec fn key_index(cc: ColsMap, k: Seq<char>, i: int) -> int
    decreases cc.len() - i,
{
    if i < 0 || i >= cc.len() {
        -1
    } else if cc[i].0 == k {
        i
    } else {
        key_index(cc, k, i + 1)
    }
}

pub open spec fn cc_get(cc: ColsMap, k: Seq<char>) -> Option<Seq<Seq<char>>> {
    let j = key_index(cc, k, 0);
    if j < 0 {
        None
    } else {
        Some(cc[j].1)
    }
}

/// Sets the entry for `k` (a later `CREATE TABLE` of the same table wins).
pub open spec fn cc_insert(cc: ColsMap, k: Seq<char>, v: Seq<Seq<char>>) -> ColsMap {
    let j = key_index(cc, k, 0);
    if j < 0 {
        cc.push((k, v))
    } else {
        cc.update(j, (k, v))
    }
}

proof fn lemma_key_index(cc: ColsMap, k: Seq<char>, i: int)
    requires
        0 <= i,
    ensures
        key_index(cc, k, i) == -1 || (i <= key_index(cc, k, i) < cc.len() && cc[key_index(cc, k, i)].0 == k),
    decreases cc.len() - i,
{
    if i < cc.len() && cc[i].0 != k {
        lemma_key_index(cc, k, i + 1);
    }
}

pub open spec fn cc_view(v: Seq<(String, Vec<String>)>) -> ColsMap {
    v.map_values(|p: (String, Vec<String>)| (p.0@, p.1.deep_view()))
}

/// Whether a statement's table is the one wanted (any table when none is).
pub open spec fn is_target(table: Seq<char>, wanted: Option<Seq<char>>) -> bool {
    match wanted {
        Some(w) => ci_eq(table, w),
        None => true,
    }
}

/// The synthetic names `c0 .. c{n-1}`.
pub open spec fn synth_names(n: nat) -> Seq<Seq<char>> {
    Seq::new(n, |i: int| synthetic_name(i as nat))
}

/// What `sql_open` gives: the source table, its columns and the row stream.
pub struct OpenV {
    pub table: Seq<char>,
    pub columns: Seq<Seq<char>>,
    pub rows: RowsV,
}

/// At the end of the input with no matching `INSERT`: the wanted table if
/// a `CREATE TABLE` declared it, else the first table created, with no rows.
pub open spec fn open_finish(wanted: Option<Seq<char>>, cc: ColsMap) -> Result<OpenV, SqlError> {
    if wanted is Some && cc_get(cc, ascii_lower_chars(wanted->Some_0)) is Some {
        let w = wanted->Some_0;
        Ok(OpenV { table: w, columns: cc_get(cc, ascii_lower_chars(w))->Some_0, rows: empty_rows(w) })
    } else if cc.len() > 0 {
        Ok(OpenV { table: cc[0].0, columns: cc[0].1, rows: empty_rows(cc[0].0) })
    } else {
        Err(SqlError::NothingFound)
    }
}

/// After `INSERT INTO` of the target table, at `VALUES`: its columns come
/// from its `CREATE TABLE`, else from the statement's column list, else
/// from the width of its first tuple (`c0 .. cN`), which is then kept to be
/// yielded first.
pub open spec fn open_target(d: Seq<u8>, s5: TokSt, table: Seq<char>, collist: Option<Seq<Seq<char>>>, cc: ColsMap) -> Result<OpenV, SqlError> {
    let known = match cc_get(cc, ascii_lower_chars(table)) {
        Some(c) => Some(c),
        None => collist,
    };
    match known {
        Some(cols) => Ok(OpenV {
            table,
            columns: cols,
            rows: RowsV { data: d, st: s5, target: table, in_values: true, pending: None },
        }),
        None => {
            let (fr, s6) = first_tuple(d, s5);
            match fr {
                Err(e) => Err(e),
                Ok(row) => Ok(OpenV {
                    table,
                    columns: synth_names(row.len()),
                    rows: RowsV { data: d, st: s6, target: table, in_values: true, pending: Some(row) },
                }),
            }
        },
    }
}

/// After a `CREATE` word: reads `TABLE name ( ... )` and records the
/// declared columns (when there is at least one) under the lower-cased name.
pub open spec fn create_step(d: Seq<u8>, s1: TokSt, cc: ColsMap) -> (Result<(), SqlError>, TokSt, ColsMap) {
    let (cr, s2) = create_name(d, s1);
    match cr {
        Err(e) => (Err(e), s2, cc),
        Ok(None) => (Ok(()), s2, cc),
        Ok(Some(table)) => {
            let (cb, s3) = create_body(d, s2);
            match cb {
                Err(e) => (Err(e), s3, cc),
                Ok(Some(cols)) => if cols.len() > 0 {
                    (Ok(()), s3, cc_insert(cc, ascii_lower_chars(table), cols))
                } else {
                    (Ok(()), s3, cc)
                },
                Ok(None) => (Ok(()), s3, cc),
            }
        },
    }
}

pub proof fn lemma_create_step(d: Seq<u8>, s1: TokSt, cc: ColsMap)
    requires
        st_wf(d, s1),
    ensures
        st_wf(d, create_step(d, s1, cc).1),
        rank(d, create_step(d, s1, cc).1) <= rank(d, s1),
{
    lemma_create_name(d, s1);
    let (cr, s2) = create_name(d, s1);
    lemma_create_body(d, s2);
}

/// How an `INSERT` statement met while opening ends.
pub enum InsertStep {
    Fail(SqlError),
    Continue(TokSt),
    Found(OpenV),
}

/// After an `INSERT` word: `INTO name`; a statement for another table is
/// skipped, one for the wanted table opens the stream.
pub open spec fn insert_step(d: Seq<u8>, s1: TokSt, wanted: Option<Seq<char>>, cc: ColsMap) -> InsertStep {
    let (r2, s2) = next_tok(d, s1);
    match r2 {
        Err(e) => InsertStep::Fail(e),
        Ok(t2) => if !is_word_kw(t2, "INTO"@) {
            InsertStep::Continue(s2)
        } else {
            let (r3, s3) = next_tok(d, s2);
            match r3 {
                Err(e) => InsertStep::Fail(e),
                Ok(None) => InsertStep::Continue(s3),
                Ok(Some(first)) => {
                    let (tr, s4) = table_loop(d, s3, ident_of(first));
                    match tr {
                        Err(e) => InsertStep::Fail(e),
                        Ok(table) => if !is_target(table, wanted) {
                            let (sr, s5) = skip_semi(d, s4);
                            match sr {
                                Err(e) => InsertStep::Fail(e),
                                Ok(_) => InsertStep::Continue(s5),
                            }
                        } else {
                            let (vr, s5) = values_scan(d, s4, None);
                            match vr {
                                Err(e) => InsertStep::Fail(e),
                                Ok(collist) => match open_target(d, s5, table, collist, cc) {
                                    Ok(o) => InsertStep::Found(o),
                                    Err(e) => InsertStep::Fail(e),
                                },
                            }
                        },
                    }
                },
            }
        },
    }
}

pub proof fn lemma_insert_step(d: Seq<u8>, s1: TokSt, wanted: Option<Seq<char>>, cc: ColsMap)
    requires
        st_wf(d, s1),
    ensures
        insert_step(d, s1, wanted, cc) is Continue ==> st_wf(d, insert_step(d, s1, wanted, cc)->Continue_0)
            && rank(d, insert_step(d, s1, wanted, cc)->Continue_0) <= rank(d, s1),
{
    lemma_next_tok(d, s1);
    let (r2, s2) = next_tok(d, s1);
    lemma_next_tok(d, s2);
    let (r3, s3) = next_tok(d, s2);
    if let Ok(Some(first)) = r3 {
        lemma_table_loop(d, s3, ident_of(first));
        let (tr, s4) = table_loop(d, s3, ident_of(first));
        lemma_skip_semi(d, s4);
    }
}

/// The single pass of `sql_open` from tokenizer state `st`, with the
/// `CREATE TABLE` columns `cc` seen so far.
pub open spec fn open_scan(d: Seq<u8>, st: TokSt, wanted: Option<Seq<char>>, cc: ColsMap) -> Result<OpenV, SqlError>
    decreases rank(d, st),
{
    if !st_wf(d, st) {
        open_finish(wanted, cc)
    } else {
        let (r, s1) = next_tok(d, st);
        proof {
            lemma_next_tok(d, st);
        }
        match r {
            Err(e) => Err(e),
            Ok(None) => open_finish(wanted, cc),
            Ok(Some(TokenOf::Word(w))) => if ci_eq(w, "CREATE"@) {
                let (cr, s3, cc2) = create_step(d, s1, cc);
                proof {
                    lemma_create_step(d, s1, cc);
                }
                match cr {
                    Err(e) => Err(e),
                    Ok(_) => open_scan(d, s3, wanted, cc2),
                }
            } else if ci_eq(w, "INSERT"@) {
                proof {
                    lemma_insert_step(d, s1, wanted, cc);
                }
                match insert_step(d, s1, wanted, cc) {
                    InsertStep::Fail(e) => Err(e),
                    InsertStep::Continue(s5) => open_scan(d, s5, wanted, cc),
                    InsertStep::Found(o) => Ok(o),
                }
            } else {
                open_scan(d, s1, wanted, cc)
            },
            Ok(Some(_)) => open_scan(d, s1, wanted, cc),
        }
    }
}

pub open spec fn opt_str_view(w: Option<&str>) -> Option<Seq<char>> {
    match w {
        Some(s) => Some(s@),
        None => None,
    }
}

pub open spec fn open_view(r: Result<(String, Vec<String>, SqlRowIter), SqlError>) -> Result<OpenV, SqlError> {
    match r {
        Ok((t, c, it)) => Ok(OpenV { table: t@, columns: c.deep_view(), rows: it.view_rows() }),
        Err(e) => Err(e),
    }
}

fn clone_strings(v: &Vec<String>) -> (r: Vec<String>)
    ensures
        r.deep_view() == v.deep_view(),
{
    let mut r: Vec<String> = Vec::new();
    let mut i: usize = 0;
    while i < v.len()
        invariant
            i <= v.len(),
            r.deep_view() == v.deep_view().take(i as int),
        decreases v.len() - i,
    {
        let ghost before = r.deep_view();
        r.push(v[i].clone());
        i += 1;
        assert(r.deep_view() =~= before.push(v[i - 1]@));
        assert(v.deep_view().take(i as int) =~= v.deep_view().take(i - 1).push(v[i - 1]@));
    }
    assert(v.deep_view().take(v.len() as int) =~= v.deep_view());
    r
}

fn find_key(cc: &Vec<(String, Vec<String>)>, k: &String) -> (r: Option<usize>)
    ensures
        match r {
            Some(i) => key_index(cc_view(cc@), k@, 0) == i as int && i < cc.len(),
            None => key_index(cc_view(cc@), k@, 0) == -1,
        },
{
    let ghost m = cc_view(cc@);
    let mut i: usize = 0;
    while i < cc.len()
        invariant
            i <= cc.len(),
            m == cc_view(cc@),
            key_index(m, k@, 0) == key_index(m, k@, i as int),
        decreases cc.len() - i,
    {
        assert(m[i as int].0 == cc@[i as int].0@);
        if cc[i].0 == *k {
            return Some(i);
        }
        i += 1;
    }
    None
}

fn cols_get(cc: &Vec<(String, Vec<String>)>, k: &String) -> (r: Option<Vec<String>>)
    ensures
        opt_cols_view(r) == cc_get(cc_view(cc@), k@),
{
    match find_key(cc, k) {
        Some(i) => Some(clone_strings(&cc[i].1)),
        None => None,
    }
}

fn cols_insert(cc: &mut Vec<(String, Vec<String>)>, k: String, v: Vec<String>)
    ensures
        cc_view(final(cc)@) == cc_insert(cc_view(old(cc)@), k@, v.deep_view()),
{
    let ghost k0 = k@;
    let ghost v0 = v.deep_view();
    match find_key(cc, &k) {
        Some(i) => {
            cc.set(i, (k, v));
            assert(cc_view(cc@) =~= cc_insert(cc_view(old(cc)@), k0, v0));
        },
        None => {
            cc.push((k, v));
            assert(cc_view(cc@) =~= cc_insert(cc_view(old(cc)@), k0, v0));
        },
    }
}

fn synthetic_columns(n: usize) -> (r: Vec<String>)
    ensures
        r.deep_view() == synth_names(n as nat),
{
    let mut r: Vec<String> = Vec::new();
    let mut i: usize = 0;
    while i < n
        invariant
            i <= n,
            r.deep_view() == synth_names(n as nat).take(i as int),
        decreases n - i,
    {
        let ghost before = r.deep_view();
        r.push(synthetic_column(i));
        i += 1;
        assert(r.deep_view() =~= before.push(synthetic_name((i - 1) as nat)));
        assert(r.deep_view() =~= synth_names(n as nat).take(i as int));
    }
    assert(synth_names(n as nat).take(n as int) =~= synth_names(n as nat));
    r
}

/// The `CREATE` branch of `sql_open`.
fn open_create(tok: &mut Tokenizer, create_cols: &mut Vec<(String, Vec<String>)>) -> (r: Result<(), SqlError>)
    requires
        old(tok).wf(),
    ensures
        final(tok).wf(),
        final(tok).data() == old(tok).data(),
        ({
            let (sr, s, cc) = create_step(old(tok).data(), old(tok).st(), cc_view(old(create_cols)@));
            &&& final(tok).st() == s
            &&& cc_view(final(create_cols)@) == cc
            &&& r == sr
        }),
{
    let ghost d = tok.data();
    proof {
        lemma_create_name(d, tok.st());
    }
    let table = match read_create_table_name(tok) {
        Err(e) => return Err(e),
        Ok(None) => return Ok(()),
        Ok(Some(n)) => n,
    };
    proof {
        lemma_create_body(d, tok.st());
    }
    match parse_create_body(tok) {
        Err(e) => Err(e),
        Ok(Some(cols)) => {
            if cols.len() > 0 {
                let key = ascii_lowercase(table.as_str());
                cols_insert(create_cols, key, cols);
            }
            Ok(())
        },
        Ok(None) => Ok(()),
    }
}

/// How the `INSERT` branch of `sql_open` ended.
pub enum InsertExec {
    Fail(SqlError),
    Continue(Tokenizer),
    Found(String, Vec<String>, SqlRowIter),
}

pub open spec fn insert_exec_view(r: InsertExec, d: Seq<u8>) -> InsertStep {
    match r {
        InsertExec::Fail(e) => InsertStep::Fail(e),
        InsertExec::Continue(t) => InsertStep::Continue(t.st()),
        InsertExec::Found(t, c, it) => InsertStep::Found(
            OpenV { table: t@, columns: c.deep_view(), rows: it.view_rows() },
        ),
    }
}

/// The `INSERT` branch of `sql_open`.
fn open_insert(tok: Tokenizer, wanted: Option<&str>, create_cols: &Vec<(String, Vec<String>)>) -> (r: InsertExec)
    requires
        tok.wf(),
    ensures
        insert_exec_view(r, tok.data()) == insert_step(tok.data(), tok.st(), opt_str_view(wanted), cc_view(create_cols@)),
        r is Continue ==> r->Continue_0.wf() && r->Continue_0.data() == tok.data(),
        r is Found ==> r->Found_2.wf(),
{
    let mut tok = tok;
    let ghost d = tok.data();
    proof {
        lemma_next_tok(d, tok.st());
    }
    let t2 = match tok.next_token() {
        Err(e) => return InsertExec::Fail(e),
        Ok(t2) => t2,
    };
    if !token_is_kw(&t2, "INTO") {
        return InsertExec::Continue(tok);
    }
    proof {
        lemma_next_tok(d, tok.st());
    }
    let first = match tok.next_token() {
        Err(e) => return InsertExec::Fail(e),
        Ok(None) => return InsertExec::Continue(tok),
        Ok(Some(f)) => f,
    };
    proof {
        lemma_table_loop(d, tok.st(), ident_of(first@));
    }
    let table = match table_from_token(&mut tok, &first) {
        Err(e) => return InsertExec::Fail(e),
        Ok(n) => n,
    };
    let target = match wanted {
        Some(wn) => str_ci_eq(table.as_str(), wn),
        None => true,
    };
    if !target {
        proof {
            lemma_skip_semi(d, tok.st());
        }
        return match skip_to_semi(&mut tok) {
            Err(e) => InsertExec::Fail(e),
            Ok(()) => InsertExec::Continue(tok),
        };
    }
    proof {
        lemma_values_scan(d, tok.st(), None);
    }
    let collist = match read_until_values(&mut tok) {
        Err(e) => return InsertExec::Fail(e),
        Ok(c) => c,
    };
    let key = ascii_lowercase(table.as_str());
    let known = match cols_get(create_cols, &key) {
        Some(c) => Some(c),
        None => collist,
    };
    match known {
        Some(cols) => {
            let iter = SqlRowIter { tok, target: table.clone(), in_values: true, pending: None };
            InsertExec::Found(table, cols, iter)
        },
        None => {
            proof {
                lemma_first_tuple(d, tok.st());
            }
            let first_row = match read_first_tuple(&mut tok) {
                Err(e) => return InsertExec::Fail(e),
                Ok(r) => r,
            };
            let cols = synthetic_columns(first_row.len());
            let iter = SqlRowIter { tok, target: table.clone(), in_values: true, pending: Some(first_row) };
            InsertExec::Found(table, cols, iter)
        },
    }
}

/// The end of `sql_open` when no `INSERT` of the wanted table was found.
fn open_fallback(wanted: Option<&str>, create_cols: &Vec<(String, Vec<String>)>) -> (r: Result<(String, Vec<String>, SqlRowIter), SqlError>)
    ensures
        open_view(r) == open_finish(opt_str_view(wanted), cc_view(create_cols@)),
        r is Ok ==> r->Ok_0.2.wf(),
{
    if let Some(wn) = wanted {
        let key = ascii_lowercase(wn);
        if let Some(cols) = cols_get(create_cols, &key) {
            return Ok((wn.to_string(), cols, SqlRowIter::empty(wn.to_string())));
        }
    }
    if create_cols.len() > 0 {
        let table = create_cols[0].0.clone();
        let cols = clone_strings(&create_cols[0].1);
        assert(cc_view(create_cols@)[0].1 == create_cols@[0].1.deep_view());
        let iter = SqlRowIter::empty(table.clone());
        return Ok((table, cols, iter));
    }
    Err(SqlError::NothingFound)
}

/// Opens a SQL dump (given as its bytes) in a single pass: resolves the
/// source table and its columns, then returns a stream positioned on that
/// table's rows. `wanted` names the table to read (case-insensitively);
/// with `None` the first table that receives an `INSERT` is read.
pub fn sql_open(data: Vec<u8>, wanted: Option<&str>) -> (r: Result<(String, Vec<String>, SqlRowIter), SqlError>)
    ensures
        open_view(r) == open_scan(data@, TokSt { peeked: None, pos: 0 }, opt_str_view(wanted), Seq::empty()),
        r is Ok ==> r->Ok_0.2.wf(),
{
    let mut tok = Tokenizer::new(data);
    let ghost d = tok.data();
    let ghost w = opt_str_view(wanted);
    let mut create_cols: Vec<(String, Vec<String>)> = Vec::new();
    assert(cc_view(create_cols@) =~= Seq::<(Seq<char>, Seq<Seq<char>>)>::empty());
    let ghost s0 = tok.st();
    loop
        invariant
            tok.wf(),
            tok.data() == d,
            d == data@,
            s0 == (TokSt { peeked: None, pos: 0 }),
            w == opt_str_view(wanted),
            open_scan(d, tok.st(), w, cc_view(create_cols@)) == open_scan(d, s0, w, Seq::empty()),
        decreases rank(d, tok.st()),
    {
        let ghost st = tok.st();
        proof {
            lemma_next_tok(d, st);
        }
        let t = match tok.next_token() {
            Err(e) => return Err(e),
            Ok(None) => return open_fallback(wanted, &create_cols),
            Ok(Some(t)) => t,
        };
        let word = match t {
            TokenOf::Word(w) => w,
            _ => continue,
        };
        if str_ci_eq(word.as_str(), "CREATE") {
            proof {
                lemma_create_step(d, tok.st(), cc_view(create_cols@));
            }
            match open_create(&mut tok, &mut create_cols) {
                Err(e) => return Err(e),
                Ok(()) => {},
            }
        } else if str_ci_eq(word.as_str(), "INSERT") {
            proof {
                lemma_insert_step(d, tok.st(), w, cc_view(create_cols@));
            }
            match open_insert(tok, wanted, &create_cols) {
                InsertExec::Fail(e) => return Err(e),
                InsertExec::Continue(t) => {
                    tok = t;
                },
                InsertExec::Found(table, cols, iter) => return Ok((table, cols, iter)),
            }
        }
    }
}

} // verus!
