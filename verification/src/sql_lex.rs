//! Tokenizer for SQL dumps (MySQL/SQLite style `CREATE TABLE` and
//! `INSERT ... VALUES` statements).
//!
//! The input is a byte buffer. Tokens are words, quoted string literals,
//! quoted identifiers and the four punctuation marks `(`, `)`, `,`, `;`.
//! White space, `#` and `--` line comments and `/* */` block comments are
//! skipped; a lone `/` is dropped. The text of a token is decoded from its
//! bytes as `String::from_utf8_lossy` does.
//!
//! Every lexing step is specified by a spec function over the buffer and a
//! position (`lex`, `quoted`, ...); the executable tokenizer is proved to
//! follow them.

use vstd::prelude::*;
use crate::text::{utf8_lossy, lossy_string, push_char};

verus! {

/// Why a dump could not be read.
#[derive(Debug, Clone, Copy, PartialEq, Eq, Structural)]
pub enum SqlError {
    /// A `'...'` or `"..."` literal runs to the end of the input.
    UnterminatedString,
    /// A backslash escape is the last byte of the input.
    UnterminatedEscape,
    /// A `` `...` `` or `[...]` identifier runs to the end of the input.
    UnterminatedIdentifier,
    /// The input ends inside a `VALUES` tuple.
    EofInTuple,
    /// No `VALUES` tuple follows the `INSERT` whose columns must be inferred.
    NoTupleToInfer,
    /// The dump holds no `INSERT` and no `CREATE TABLE` statement.
    NothingFound,
}

/// A token; `S` is `String` for the executable token and `Seq<char>` for
/// its view.
pub enum TokenOf<S> {
    Word(S),
    Str(S),
    Ident(S),
    LParen,
    RParen,
    Comma,
    Semi,
}

pub type Token = TokenOf<String>;

pub type TokV = TokenOf<Seq<char>>;

impl View for TokenOf<String> {
    type V = TokV;

    open spec fn view(&self) -> TokV {
        match self {
            TokenOf::Word(s) => TokenOf::Word(s@),
            TokenOf::Str(s) => TokenOf::Str(s@),
            TokenOf::Ident(s) => TokenOf::Ident(s@),
            TokenOf::LParen => TokenOf::LParen,
            TokenOf::RParen => TokenOf::RParen,
            TokenOf::Comma => TokenOf::Comma,
            TokenOf::Semi => TokenOf::Semi,
        }
    }
}

pub open spec fn opt_view(t: Option<Token>) -> Option<TokV> {
    match t {
        Some(t) => Some(t@),
        None => None,
    }
}

pub open spec fn res_view(r: Result<Option<Token>, SqlError>) -> Result<Option<TokV>, SqlError> {
    match r {
        Ok(t) => Ok(opt_view(t)),
        Err(e) => Err(e),
    }
}

// ----------------------------------------------------------------------
// byte classes
// ----------------------------------------------------------------------

/// `u8::is_ascii_whitespace`: space, tab, line feed, form feed, carriage return.
pub open spec fn is_ws(b: u8) -> bool {
    b == 32 || b == 9 || b == 10 || b == 12 || b == 13
}

pub open spec fn is_alnum(b: u8) -> bool {
    (48 <= b && b <= 57) || (65 <= b && b <= 90) || (97 <= b && b <= 122)
}

/// Bytes that continue a word: ASCII letters and digits and `_ . $ + -`.
pub open spec fn is_word_byte(b: u8) -> bool {
    is_alnum(b) || b == 95 || b == 46 || b == 36 || b == 43 || b == 45
}

/// The byte a backslash escape stands for.
pub open spec fn unescape(n: u8) -> u8 {
    if n == 110 {
        10
    } else if n == 116 {
        9
    } else if n == 114 {
        13
    } else if n == 48 {
        0
    } else if n == 98 {
        8
    } else if n == 90 {
        26
    } else {
        n
    }
}

fn ws_byte(b: u8) -> (r: bool)
    ensures
        r == is_ws(b),
{
    b == 32 || b == 9 || b == 10 || b == 12 || b == 13
}

fn word_byte(b: u8) -> (r: bool)
    ensures
        r == is_word_byte(b),
{
    (48 <= b && b <= 57) || (65 <= b && b <= 90) || (97 <= b && b <= 122) || b == 95 || b == 46
        || b == 36 || b == 43 || b == 45
}

fn unescape_byte(n: u8) -> (r: u8)
    ensures
        r == unescape(n),
{
    if n == 110 {
        10
    } else if n == 116 {
        9
    } else if n == 114 {
        13
    } else if n == 48 {
        0
    } else if n == 98 {
        8
    } else if n == 90 {
        26
    } else {
        n
    }
}

// ----------------------------------------------------------------------
// the lexer, as spec functions over a buffer and a position
// ----------------------------------------------------------------------

pub open spec fn prepend(b: u8, r: Result<Seq<u8>, SqlError>) -> Result<Seq<u8>, SqlError> {
    match r {
        Ok(c) => Ok(seq![b] + c),
        Err(e) => Err(e),
    }
}

/// Body of a `'` or `"` literal starting at `j` (after the opening quote):
/// backslash escapes, a doubled quote stands for one quote. Gives the
/// content and the position after the closing quote.
pub open spec fn quoted(d: Seq<u8>, j: int, q: u8) -> (Result<Seq<u8>, SqlError>, int)
    decreases d.len() - j,
{
    if j < 0 || j >= d.len() {
        (Err(SqlError::UnterminatedString), d.len() as int)
    } else if d[j] == 92 {
        if j + 1 >= d.len() {
            (Err(SqlError::UnterminatedEscape), d.len() as int)
        } else {
            let (r, k) = quoted(d, j + 2, q);
            (prepend(unescape(d[j + 1]), r), k)
        }
    } else if d[j] == q {
        if j + 1 < d.len() && d[j + 1] == q {
            let (r, k) = quoted(d, j + 2, q);
            (prepend(q, r), k)
        } else {
            (Ok(Seq::empty()), j + 1)
        }
    } else {
        let (r, k) = quoted(d, j + 1, q);
        (prepend(d[j], r), k)
    }
}

/// Body of a back-quoted identifier; a doubled back quote stands for one.
pub open spec fn backtick(d: Seq<u8>, j: int) -> (Result<Seq<u8>, SqlError>, int)
    decreases d.len() - j,
{
    if j < 0 || j >= d.len() {
        (Err(SqlError::UnterminatedIdentifier), d.len() as int)
    } else if d[j] == 96 {
        if j + 1 < d.len() && d[j + 1] == 96 {
            let (r, k) = backtick(d, j + 2);
            (prepend(96, r), k)
        } else {
            (Ok(Seq::empty()), j + 1)
        }
    } else {
        let (r, k) = backtick(d, j + 1);
        (prepend(d[j], r), k)
    }
}

/// Bytes up to the byte `e`, which is consumed.
pub open spec fn until(d: Seq<u8>, j: int, e: u8) -> (Result<Seq<u8>, SqlError>, int)
    decreases d.len() - j,
{
    if j < 0 || j >= d.len() {
        (Err(SqlError::UnterminatedIdentifier), d.len() as int)
    } else if d[j] == e {
        (Ok(Seq::empty()), j + 1)
    } else {
        let (r, k) = until(d, j + 1, e);
        (prepend(d[j], r), k)
    }
}

/// End of the run of word bytes starting at `j`.
pub open spec fn word_end(d: Seq<u8>, j: int) -> int
    decreases d.len() - j,
{
    if 0 <= j < d.len() && is_word_byte(d[j]) {
        word_end(d, j + 1)
    } else {
        j
    }
}

/// Position after the next line feed, or the end of the buffer.
pub open spec fn skip_line(d: Seq<u8>, j: int) -> int
    decreases d.len() - j,
{
    if j < 0 || j >= d.len() {
        d.len() as int
    } else if d[j] == 10 {
        j + 1
    } else {
        skip_line(d, j + 1)
    }
}

/// Position after the next `*/` (where `prev` is the byte before `j`), or
/// the end of the buffer.
pub open spec fn skip_block(d: Seq<u8>, j: int, prev: u8) -> int
    decreases d.len() - j,
{
    if j < 0 || j >= d.len() {
        d.len() as int
    } else if prev == 42 && d[j] == 47 {
        j + 1
    } else {
        skip_block(d, j + 1, d[j])
    }
}

/// The bytes a bare SQL word is made of: ASCII letters and digits, and
/// `_`, `.`, `$`, `+`, `-`.
pub open spec fn sql_word_bytes() -> Set<u8> {
    Set::new(|b: u8| ('a' as u8) <= b <= ('z' as u8) || ('A' as u8) <= b <= ('Z' as u8) || ('0' as u8) <= b <= (
    '9' as u8)).union(set![95u8, 46u8, 36u8, 43u8, 45u8])
}

proof fn lemma_word_run(d: Seq<u8>, n: int, j: int)
    requires
        1 <= j <= n <= d.len(),
        forall|k: int| 0 <= k < n ==> sql_word_bytes().contains(#[trigger] d[k]),
        n == d.len() || !sql_word_bytes().contains(d[n]),
    ensures
        word_end(d, j) == n,
    decreases n - j,
{
    if j < n {
        assert(sql_word_bytes().contains(d[j]));
        lemma_word_run(d, n, j + 1);
    } else if j < d.len() {
        assert(!sql_word_bytes().contains(d[j]));
    }
}

/// A bare word is read whole: a run of word bytes that starts with a letter,
/// a digit or `_` and ends where a byte that is not a word byte (or the
/// input) ends it, lexes as one word token spelling those bytes.
pub proof fn law_word_token(w: Seq<u8>, rest: Seq<u8>)
    requires
        w.len() > 0,
        forall|k: int| 0 <= k < w.len() ==> sql_word_bytes().contains(#[trigger] w[k]),
        ('a' as u8) <= w[0] <= ('z' as u8) || ('A' as u8) <= w[0] <= ('Z' as u8) || ('0' as u8) <= w[0] <= (
        '9' as u8) || w[0] == 95,
        rest.len() == 0 || !sql_word_bytes().contains(rest[0]),
    ensures
        lex(w + rest, 0) == (Ok::<Option<TokV>, SqlError>(Some(TokenOf::Word(utf8_lossy(w)))), w.len() as int),
{
    let d = w + rest;
    assert forall|k: int| 0 <= k < w.len() implies sql_word_bytes().contains(#[trigger] d[k]) by {
        assert(d[k] == w[k]);
    }
    if w.len() < d.len() {
        assert(d[w.len() as int] == rest[0]);
    }
    assert(d[0] == w[0]);
    if w.len() > 1 {
        lemma_word_run(d, w.len() as int, 1);
    } else {
        if 1 < d.len() {
            assert(!sql_word_bytes().contains(d[1]));
            assert(!is_word_byte(d[1]));
        }
    }
    assert(d.subrange(0, w.len() as int) =~= w);
}

/// ASCII white space, as `u8::is_ascii_whitespace` has it: space, tab, line
/// feed, form feed, carriage return.
pub open spec fn ascii_white_bytes() -> Set<u8> {
    set![32u8, 9u8, 10u8, 12u8, 13u8]
}

/// White space between tokens is skipped: the token read at a run of ASCII
/// white space is the token that follows the run.
pub proof fn law_white_space_is_skipped(d: Seq<u8>, i: int, n: int)
    requires
        0 <= i <= n <= d.len(),
        forall|k: int| i <= k < n ==> ascii_white_bytes().contains(#[trigger] d[k]),
    ensures
        lex(d, i) == lex(d, n),
    decreases n - i,
{
    if i < n {
        assert(ascii_white_bytes().contains(d[i]));
        assert(is_ws(d[i]));
        law_white_space_is_skipped(d, i + 1, n);
    }
}

/// Punctuation stands for itself: `(`, `)`, `,` and `;` each lex as their
/// own one-byte token.
pub proof fn law_punctuation_tokens(rest: Seq<u8>)
    ensures
        lex(seq![('(' as u8)] + rest, 0) == (Ok::<Option<TokV>, SqlError>(Some(TokenOf::LParen)), 1int),
        lex(seq![(')' as u8)] + rest, 0) == (Ok::<Option<TokV>, SqlError>(Some(TokenOf::RParen)), 1int),
        lex(seq![(',' as u8)] + rest, 0) == (Ok::<Option<TokV>, SqlError>(Some(TokenOf::Comma)), 1int),
        lex(seq![(';' as u8)] + rest, 0) == (Ok::<Option<TokV>, SqlError>(Some(TokenOf::Semi)), 1int),
{
    assert((seq![('(' as u8)] + rest)[0] == 40);
    assert((seq![(')' as u8)] + rest)[0] == 41);
    assert((seq![(',' as u8)] + rest)[0] == 44);
    assert((seq![(';' as u8)] + rest)[0] == 59);
}

/// Comments are skipped: `-- ...` and `# ...` up to the end of the line,
/// and `/* ... */`; the token read at a comment is the one after it.
pub proof fn law_comments_are_skipped(body: Seq<u8>, rest: Seq<u8>)
    requires
        forall|k: int| 0 <= k < body.len() ==> body[k] != 10 && body[k] != 42,
    ensures
        lex(seq![45u8, 45u8] + body + seq![10u8] + rest, 0) == lex(
            seq![45u8, 45u8] + body + seq![10u8] + rest,
            (body.len() + 3) as int,
        ),
        lex(seq![35u8] + body + seq![10u8] + rest, 0) == lex(seq![35u8] + body + seq![10u8] + rest, (body.len() + 2) as int),
        lex(seq![47u8, 42u8] + body + seq![42u8, 47u8] + rest, 0) == lex(
            seq![47u8, 42u8] + body + seq![42u8, 47u8] + rest,
            (body.len() + 4) as int,
        ),
{
    let a = seq![45u8, 45u8] + body + seq![10u8] + rest;
    assert(a[0] == 45 && a[1] == 45);
    lemma_line_end(a, 2, (body.len() + 2) as int);
    let b = seq![35u8] + body + seq![10u8] + rest;
    assert(b[0] == 35);
    lemma_line_end(b, 1, (body.len() + 1) as int);
    let c = seq![47u8, 42u8] + body + seq![42u8, 47u8] + rest;
    assert(c[0] == 47 && c[1] == 42);
    lemma_block_end(c, 2, 0, (body.len() + 2) as int);
}

proof fn lemma_line_end(d: Seq<u8>, j: int, e: int)
    requires
        0 <= j <= e < d.len(),
        d[e] == 10,
        forall|k: int| j <= k < e ==> d[k] != 10,
    ensures
        skip_line(d, j) == e + 1,
    decreases e - j,
{
    if j < e {
        lemma_line_end(d, j + 1, e);
    }
}

proof fn lemma_block_end(d: Seq<u8>, j: int, prev: u8, e: int)
    requires
        0 <= j <= e,
        e + 1 < d.len(),
        d[e] == 42 && d[e + 1] == 47,
        forall|k: int| j <= k < e ==> d[k] != 42,
        prev != 42,
    ensures
        skip_block(d, j, prev) == e + 2,
    decreases e + 1 - j,
{
    if j < e {
        lemma_block_end(d, j + 1, d[j], e);
    } else {
        assert(skip_block(d, e + 1, d[e]) == e + 2);
    }
}

/// MySQL's escape sequences in a quoted literal: backslash followed by `n`,
/// `t`, `r`, `0`, `b` or `Z` stands for line feed, tab, carriage return,
/// NUL, backspace and Ctrl-Z; followed by any other byte, for that byte.
pub open spec fn mysql_escapes() -> Map<u8, u8> {
    map![110u8 => 10u8, 116u8 => 9u8, 114u8 => 13u8, 48u8 => 0u8, 98u8 => 8u8, 90u8 => 26u8]
}

/// A literal holding one escape sequence reads as the byte MySQL gives it:
/// `'\c'` decodes to `mysql_escapes()[c]`, or to `c` itself when `c` is not
/// one of the escape letters.
pub proof fn law_escape_sequences(c: u8, q: u8, rest: Seq<u8>)
    requires
        q == 39 || q == 34,
        rest.len() == 0 || rest[0] != q,
    ensures
        quoted(seq![92u8, c, q] + rest, 0, q) == (
            Ok::<Seq<u8>, SqlError>(seq![
                if mysql_escapes().contains_key(c) {
                    mysql_escapes()[c]
                } else {
                    c
                },
            ]),
            3int,
        ),
{
    let d = seq![92u8, c, q] + rest;
    assert(d[0] == 92 && d[1] == c && d[2] == q);
    if d.len() > 3 {
        assert(d[3] == rest[0]);
    }
    assert(quoted(d, 2, q) == (Ok::<Seq<u8>, SqlError>(Seq::empty()), 3int));
    assert(seq![unescape(c)] + Seq::<u8>::empty() =~= seq![unescape(c)]);
    let m = mysql_escapes();
    assert(m.contains_key(110u8) && m[110u8] == 10u8);
    assert(m.contains_key(116u8) && m[116u8] == 9u8);
    assert(m.contains_key(114u8) && m[114u8] == 13u8);
    assert(m.contains_key(48u8) && m[48u8] == 0u8);
    assert(m.contains_key(98u8) && m[98u8] == 8u8);
    assert(m.contains_key(90u8) && m[90u8] == 26u8);
    assert(m.dom() =~= set![110u8, 116u8, 114u8, 48u8, 98u8, 90u8]);
}

/// The body of a literal that holds `s` between `q` quotes, as a dump
/// writes it: a backslash is doubled, the quote is doubled.
pub open spec fn escape_literal(s: Seq<u8>, q: u8) -> Seq<u8>
    decreases s.len(),
{
    if s.len() == 0 {
        Seq::empty()
    } else {
        let b = s[0];
        let head: Seq<u8> = if b == 92 {
            seq![92u8, 92u8]
        } else if b == q {
            seq![q, q]
        } else {
            seq![b]
        };
        head + escape_literal(s.drop_first(), q)
    }
}

proof fn lemma_quoted_escaped(p: Seq<u8>, s: Seq<u8>, q: u8, rest: Seq<u8>)
    requires
        q != 92,
        rest.len() == 0 || rest[0] != q,
    ensures
        quoted(p + escape_literal(s, q) + seq![q] + rest, p.len() as int, q) == (
            Ok::<Seq<u8>, SqlError>(s),
            (p.len() + escape_literal(s, q).len() + 1) as int,
        ),
    decreases s.len(),
{
    let d = p + escape_literal(s, q) + seq![q] + rest;
    let j = p.len() as int;
    if s.len() == 0 {
        assert(escape_literal(s, q) =~= Seq::<u8>::empty());
        assert(d[j] == q);
        if j + 1 < d.len() {
            assert(d[j + 1] == rest[0]);
        }
        assert(s =~= Seq::<u8>::empty());
    } else {
        let b = s[0];
        let t = s.drop_first();
        let head: Seq<u8> = if b == 92 {
            seq![92u8, 92u8]
        } else if b == q {
            seq![q, q]
        } else {
            seq![b]
        };
        assert(escape_literal(s, q) == head + escape_literal(t, q));
        let p2 = p + head;
        assert(d =~= p2 + escape_literal(t, q) + seq![q] + rest);
        lemma_quoted_escaped(p2, t, q, rest);
        assert(d[j] == head[0]);
        if b == 92 || b == q {
            assert(d[j + 1] == head[1]);
        }
        assert(seq![b] + t =~= s);
    }
}

/// A literal written as a dump writes it reads back as what was written:
/// lexing `escape_literal(s, q)` followed by the closing quote gives `s`
/// and stops just after that quote (when what follows is not the quote
/// again, which would read as a doubled quote).
pub proof fn law_literal_round_trip(s: Seq<u8>, q: u8, rest: Seq<u8>)
    requires
        q == 39 || q == 34,
        rest.len() == 0 || rest[0] != q,
    ensures
        quoted(escape_literal(s, q) + seq![q] + rest, 0, q) == (
            Ok::<Seq<u8>, SqlError>(s),
            (escape_literal(s, q).len() + 1) as int,
        ),
{
    lemma_quoted_escaped(Seq::empty(), s, q, rest);
    assert(Seq::<u8>::empty() + escape_literal(s, q) + seq![q] + rest =~= escape_literal(s, q) + seq![q]
        + rest);
}

/// The body of a back-quoted identifier that names `s`: back quotes doubled.
pub open spec fn escape_backtick(s: Seq<u8>) -> Seq<u8>
    decreases s.len(),
{
    if s.len() == 0 {
        Seq::empty()
    } else {
        let head: Seq<u8> = if s[0] == 96 {
            seq![96u8, 96u8]
        } else {
            seq![s[0]]
        };
        head + escape_backtick(s.drop_first())
    }
}

proof fn lemma_backtick_escaped(p: Seq<u8>, s: Seq<u8>, rest: Seq<u8>)
    requires
        rest.len() == 0 || rest[0] != 96,
    ensures
        backtick(p + escape_backtick(s) + seq![96u8] + rest, p.len() as int) == (
            Ok::<Seq<u8>, SqlError>(s),
            (p.len() + escape_backtick(s).len() + 1) as int,
        ),
    decreases s.len(),
{
    let d = p + escape_backtick(s) + seq![96u8] + rest;
    let j = p.len() as int;
    if s.len() == 0 {
        assert(escape_backtick(s) =~= Seq::<u8>::empty());
        assert(d[j] == 96);
        if j + 1 < d.len() {
            assert(d[j + 1] == rest[0]);
        }
        assert(s =~= Seq::<u8>::empty());
    } else {
        let t = s.drop_first();
        let head: Seq<u8> = if s[0] == 96 {
            seq![96u8, 96u8]
        } else {
            seq![s[0]]
        };
        assert(escape_backtick(s) == head + escape_backtick(t));
        let p2 = p + head;
        assert(d =~= p2 + escape_backtick(t) + seq![96u8] + rest);
        lemma_backtick_escaped(p2, t, rest);
        assert(d[j] == head[0]);
        if s[0] == 96 {
            assert(d[j + 1] == head[1]);
        }
        assert(seq![s[0]] + t =~= s);
    }
}

/// A back-quoted identifier reads back as the name it was written for.
pub proof fn law_backtick_round_trip(s: Seq<u8>, rest: Seq<u8>)
    requires
        rest.len() == 0 || rest[0] != 96,
    ensures
        backtick(escape_backtick(s) + seq![96u8] + rest, 0) == (
            Ok::<Seq<u8>, SqlError>(s),
            (escape_backtick(s).len() + 1) as int,
        ),
{
    lemma_backtick_escaped(Seq::empty(), s, rest);
    assert(Seq::<u8>::empty() + escape_backtick(s) + seq![96u8] + rest =~= escape_backtick(s) + seq![96u8]
        + rest);
}

pub proof fn lemma_skip_line(d: Seq<u8>, j: int)
    requires
        0 <= j <= d.len(),
    ensures
        j <= skip_line(d, j) <= d.len(),
    decreases d.len() - j,
{
    if j < d.len() && d[j] != 10 {
        lemma_skip_line(d, j + 1);
    }
}

pub proof fn lemma_skip_block(d: Seq<u8>, j: int, prev: u8)
    requires
        0 <= j <= d.len(),
    ensures
        j <= skip_block(d, j, prev) <= d.len(),
    decreases d.len() - j,
{
    if j < d.len() && !(prev == 42 && d[j] == 47) {
        lemma_skip_block(d, j + 1, d[j]);
    }
}

pub proof fn lemma_word_end(d: Seq<u8>, j: int)
    requires
        0 <= j <= d.len(),
    ensures
        j <= word_end(d, j) <= d.len(),
    decreases d.len() - j,
{
    if j < d.len() && is_word_byte(d[j]) {
        lemma_word_end(d, j + 1);
    }
}

pub proof fn lemma_quoted(d: Seq<u8>, j: int, q: u8)
    requires
        0 <= j <= d.len(),
    ensures
        j <= quoted(d, j, q).1 <= d.len(),
        j < d.len() ==> j < quoted(d, j, q).1,
    decreases d.len() - j,
{
    if j < d.len() {
        if d[j] == 92 {
            if j + 1 < d.len() {
                lemma_quoted(d, j + 2, q);
            }
        } else if d[j] == q {
            if j + 1 < d.len() && d[j + 1] == q {
                lemma_quoted(d, j + 2, q);
            }
        } else {
            lemma_quoted(d, j + 1, q);
        }
    }
}

pub proof fn lemma_backtick(d: Seq<u8>, j: int)
    requires
        0 <= j <= d.len(),
    ensures
        j < backtick(d, j).1 <= d.len() || (j == d.len() && backtick(d, j).1 == d.len()),
    decreases d.len() - j,
{
    if j < d.len() {
        if d[j] == 96 {
            if j + 1 < d.len() && d[j + 1] == 96 {
                lemma_backtick(d, j + 2);
            }
        } else {
            lemma_backtick(d, j + 1);
        }
    }
}

pub proof fn lemma_until(d: Seq<u8>, j: int, e: u8)
    requires
        0 <= j <= d.len(),
    ensures
        j < until(d, j, e).1 <= d.len() || (j == d.len() && until(d, j, e).1 == d.len()),
    decreases d.len() - j,
{
    if j < d.len() && d[j] != e {
        lemma_until(d, j + 1, e);
    }
}

/// A token made of the text of a byte run.
pub open spec fn text_tok(kind: int, r: Result<Seq<u8>, SqlError>) -> Result<Option<TokV>, SqlError> {
    match r {
        Ok(c) => Ok(Some(
            if kind == 0 {
                TokenOf::Str(utf8_lossy(c))
            } else {
                TokenOf::Ident(utf8_lossy(c))
            },
        )),
        Err(e) => Err(e),
    }
}

/// The next token at or after position `i`, and the position after it.
/// At the end of the input the result is `Ok(None)`.
pub open spec fn lex(d: Seq<u8>, i: int) -> (Result<Option<TokV>, SqlError>, int)
    decreases d.len() - i,
{
    if i < 0 || i >= d.len() {
        (Ok(None), d.len() as int)
    } else {
        let b = d[i];
        if is_ws(b) {
            lex(d, i + 1)
        } else if b == 39 || b == 34 {
            let (r, k) = quoted(d, i + 1, b);
            (text_tok(0, r), k)
        } else if b == 96 {
            let (r, k) = backtick(d, i + 1);
            (text_tok(1, r), k)
        } else if b == 91 {
            let (r, k) = until(d, i + 1, 93);
            (text_tok(1, r), k)
        } else if b == 40 {
            (Ok(Some(TokenOf::LParen)), i + 1)
        } else if b == 41 {
            (Ok(Some(TokenOf::RParen)), i + 1)
        } else if b == 44 {
            (Ok(Some(TokenOf::Comma)), i + 1)
        } else if b == 59 {
            (Ok(Some(TokenOf::Semi)), i + 1)
        } else if b == 35 {
            proof {
                lemma_skip_line(d, i + 1);
            }
            lex(d, skip_line(d, i + 1))
        } else if b == 45 && i + 1 < d.len() && d[i + 1] == 45 {
            proof {
                lemma_skip_line(d, i + 2);
            }
            lex(d, skip_line(d, i + 2))
        } else if b == 47 {
            if i + 1 < d.len() && d[i + 1] == 42 {
                proof {
                    lemma_skip_block(d, i + 2, 0);
                }
                lex(d, skip_block(d, i + 2, 0))
            } else {
                lex(d, i + 1)
            }
        } else {
            let k = word_end(d, i + 1);
            (Ok(Some(TokenOf::Word(utf8_lossy(d.subrange(i, k))))), k)
        }
    }
}

/// A token is only produced by consuming input; the position stays in bounds.
pub proof fn lemma_lex(d: Seq<u8>, i: int)
    requires
        0 <= i <= d.len(),
    ensures
        i <= lex(d, i).1 <= d.len(),
        lex(d, i).0 is Ok && lex(d, i).0->Ok_0 is Some ==> i < lex(d, i).1,
        lex(d, i).0 is Ok && lex(d, i).0->Ok_0 is None ==> lex(d, i).1 == d.len(),
    decreases d.len() - i,
{
    if i < d.len() {
        let b = d[i];
        if is_ws(b) {
            lemma_lex(d, i + 1);
        } else if b == 39 || b == 34 {
            lemma_quoted(d, i + 1, b);
        } else if b == 96 {
            lemma_backtick(d, i + 1);
        } else if b == 91 {
            lemma_until(d, i + 1, 93);
        } else if b == 40 || b == 41 || b == 44 || b == 59 {
        } else if b == 35 {
            lemma_skip_line(d, i + 1);
            lemma_lex(d, skip_line(d, i + 1));
        } else if b == 45 && i + 1 < d.len() && d[i + 1] == 45 {
            lemma_skip_line(d, i + 2);
            lemma_lex(d, skip_line(d, i + 2));
        } else if b == 47 {
            if i + 1 < d.len() && d[i + 1] == 42 {
                lemma_skip_block(d, i + 2, 0);
                lemma_lex(d, skip_block(d, i + 2, 0));
            } else {
                lemma_lex(d, i + 1);
            }
        } else {
            lemma_word_end(d, i + 1);
        }
    }
}

// ----------------------------------------------------------------------
// tokenizer state: a position and at most one looked-ahead token
// ----------------------------------------------------------------------

pub struct TokSt {
    pub peeked: Option<TokV>,
    pub pos: int,
}

/// Well-formed state: in bounds, and a looked-ahead token was read from
/// at least one byte.
pub open spec fn st_wf(d: Seq<u8>, st: TokSt) -> bool {
    &&& 0 <= st.pos <= d.len()
    &&& st.peeked is Some ==> st.pos > 0
}

/// Termination measure of everything that reads tokens.
pub open spec fn rank(d: Seq<u8>, st: TokSt) -> nat {
    ((d.len() - st.pos) * 2 + (if st.peeked is Some { 1int } else { 0int })) as nat
}

/// Takes the next token: the looked-ahead one if there is one.
pub open spec fn next_tok(d: Seq<u8>, st: TokSt) -> (Result<Option<TokV>, SqlError>, TokSt) {
    match st.peeked {
        Some(t) => (Ok(Some(t)), TokSt { peeked: None, pos: st.pos }),
        None => {
            let (r, k) = lex(d, st.pos);
            (r, TokSt { peeked: None, pos: k })
        },
    }
}

/// Looks at the next token without taking it. At the end of the input, or
/// on an error, nothing is kept.
pub open spec fn peek_tok(d: Seq<u8>, st: TokSt) -> (Result<Option<TokV>, SqlError>, TokSt) {
    match st.peeked {
        Some(t) => (Ok(Some(t)), st),
        None => {
            let (r, k) = lex(d, st.pos);
            match r {
                Ok(Some(t)) => (Ok(Some(t)), TokSt { peeked: Some(t), pos: k }),
                _ => (r, TokSt { peeked: None, pos: k }),
            }
        },
    }
}

pub proof fn lemma_next_tok(d: Seq<u8>, st: TokSt)
    requires
        st_wf(d, st),
    ensures
        st_wf(d, next_tok(d, st).1),
        next_tok(d, st).1.peeked is None,
        rank(d, next_tok(d, st).1) <= rank(d, st),
        next_tok(d, st).0 is Ok && next_tok(d, st).0->Ok_0 is Some ==> rank(d, next_tok(d, st).1)
            < rank(d, st),
{
    lemma_lex(d, st.pos);
}

pub proof fn lemma_peek_tok(d: Seq<u8>, st: TokSt)
    requires
        st_wf(d, st),
    ensures
        st_wf(d, peek_tok(d, st).1),
        rank(d, peek_tok(d, st).1) <= rank(d, st),
        peek_tok(d, st).0 is Ok && peek_tok(d, st).0->Ok_0 is Some ==> peek_tok(d, st).1.peeked
            == peek_tok(d, st).0->Ok_0,
{
    lemma_lex(d, st.pos);
}

// ----------------------------------------------------------------------
// the executable tokenizer
// ----------------------------------------------------------------------

/// Reads tokens from a byte buffer.
pub struct Tokenizer {
    data: Vec<u8>,
    pos: usize,
    peeked: Option<Token>,
}

impl Tokenizer {
    /// The buffer being read.
    pub closed spec fn data(&self) -> Seq<u8> {
        self.data@
    }

    /// Position and looked-ahead token.
    pub closed spec fn st(&self) -> TokSt {
        TokSt { peeked: opt_view(self.peeked), pos: self.pos as int }
    }

    pub open spec fn wf(&self) -> bool {
        &&& st_wf(self.data(), self.st())
        &&& self.data().len() <= usize::MAX
    }

    /// A tokenizer at the start of `data`.
    pub fn new(data: Vec<u8>) -> (t: Tokenizer)
        ensures
            t.data() == data@,
            t.st() == (TokSt { peeked: None, pos: 0 }),
            t.wf(),
    {
        let _n = data.len();
        Tokenizer { data, pos: 0, peeked: None }
    }

    /// A tokenizer with no input: yields the end at once.
    pub fn empty() -> (t: Tokenizer)
        ensures
            t.data() == Seq::<u8>::empty(),
            t.st() == (TokSt { peeked: None, pos: 0 }),
            t.wf(),
    {
        Tokenizer { data: Vec::new(), pos: 0, peeked: None }
    }

    /// Continues a result found at a later position with the bytes read so far.
    spec fn lift(out: Seq<u8>, r: (Result<Seq<u8>, SqlError>, int)) -> (Result<Seq<u8>, SqlError>, int) {
        (
            match r.0 {
                Ok(c) => Ok(out + c),
                Err(e) => Err(e),
            },
            r.1,
        )
    }

    fn read_quoted(&mut self, q: u8) -> (r: Result<Vec<u8>, SqlError>)
        requires
            old(self).pos <= old(self).data.len(),
        ensures
            final(self).data == old(self).data,
            final(self).peeked == old(self).peeked,
            final(self).pos <= final(self).data.len(),
            ({
                let (sr, k) = quoted(old(self).data@, old(self).pos as int, q);
                &&& final(self).pos == k
                &&& match r {
                    Ok(v) => sr == Ok::<Seq<u8>, SqlError>(v@),
                    Err(e) => sr == Err::<Seq<u8>, SqlError>(e),
                }
            }),
    {
        let ghost d = self.data@;
        let ghost j0 = self.pos as int;
        let mut out: Vec<u8> = Vec::new();
        assert(Seq::<u8>::empty() + quoted(d, j0, q).0->Ok_0 =~= quoted(d, j0, q).0->Ok_0);
        loop
            invariant
                self.data == old(self).data,
                self.data@ == d,
                self.peeked == old(self).peeked,
                self.pos <= self.data.len(),
                j0 == old(self).pos,
                quoted(d, j0, q) == Self::lift(out@, quoted(d, self.pos as int, q)),
            decreases self.data.len() - self.pos,
        {
            let p = self.pos;
            let n = self.data.len();
            if p >= n {
                self.pos = n;
                return Err(SqlError::UnterminatedString);
            }
            let b = self.data[p];
            if b == 92 {
                if p + 1 >= n {
                    self.pos = n;
                    return Err(SqlError::UnterminatedEscape);
                }
                let ghost before = out@;
                out.push(unescape_byte(self.data[p + 1]));
                assert(before + (seq![unescape(d[p + 1])] + quoted(d, p + 2, q).0->Ok_0) =~= out@
                    + quoted(d, p + 2, q).0->Ok_0);
                self.pos = p + 2;
            } else if b == q {
                if p + 1 < n && self.data[p + 1] == q {
                    let ghost before = out@;
                    out.push(q);
                    assert(before + (seq![q] + quoted(d, p + 2, q).0->Ok_0) =~= out@ + quoted(
                        d,
                        p + 2,
                        q,
                    ).0->Ok_0);
                    self.pos = p + 2;
                } else {
                    self.pos = p + 1;
                    assert(out@ + Seq::<u8>::empty() =~= out@);
                    return Ok(out);
                }
            } else {
                let ghost before = out@;
                out.push(b);
                assert(before + (seq![b] + quoted(d, p + 1, q).0->Ok_0) =~= out@ + quoted(
                    d,
                    p + 1,
                    q,
                ).0->Ok_0);
                self.pos = p + 1;
            }
        }
    }

    fn read_backtick(&mut self) -> (r: Result<Vec<u8>, SqlError>)
        requires
            old(self).pos <= old(self).data.len(),
        ensures
            final(self).data == old(self).data,
            final(self).peeked == old(self).peeked,
            final(self).pos <= final(self).data.len(),
            ({
                let (sr, k) = backtick(old(self).data@, old(self).pos as int);
                &&& final(self).pos == k
                &&& match r {
                    Ok(v) => sr == Ok::<Seq<u8>, SqlError>(v@),
                    Err(e) => sr == Err::<Seq<u8>, SqlError>(e),
                }
            }),
    {
        let ghost d = self.data@;
        let ghost j0 = self.pos as int;
        let mut out: Vec<u8> = Vec::new();
        assert(Seq::<u8>::empty() + backtick(d, j0).0->Ok_0 =~= backtick(d, j0).0->Ok_0);
        loop
            invariant
                self.data == old(self).data,
                self.data@ == d,
                self.peeked == old(self).peeked,
                self.pos <= self.data.len(),
                j0 == old(self).pos,
                backtick(d, j0) == Self::lift(out@, backtick(d, self.pos as int)),
            decreases self.data.len() - self.pos,
        {
            let p = self.pos;
            let n = self.data.len();
            if p >= n {
                self.pos = n;
                return Err(SqlError::UnterminatedIdentifier);
            }
            let b = self.data[p];
            if b == 96 {
                if p + 1 < n && self.data[p + 1] == 96 {
                    let ghost before = out@;
                    out.push(96);
                    assert(before + (seq![96u8] + backtick(d, p + 2).0->Ok_0) =~= out@ + backtick(
                        d,
                        p + 2,
                    ).0->Ok_0);
                    self.pos = p + 2;
                } else {
                    self.pos = p + 1;
                    assert(out@ + Seq::<u8>::empty() =~= out@);
                    return Ok(out);
                }
            } else {
                let ghost before = out@;
                out.push(b);
                assert(before + (seq![b] + backtick(d, p + 1).0->Ok_0) =~= out@ + backtick(
                    d,
                    p + 1,
                ).0->Ok_0);
                self.pos = p + 1;
            }
        }
    }

    fn read_until(&mut self, end: u8) -> (r: Result<Vec<u8>, SqlError>)
        requires
            old(self).pos <= old(self).data.len(),
        ensures
            final(self).data == old(self).data,
            final(self).peeked == old(self).peeked,
            final(self).pos <= final(self).data.len(),
            ({
                let (sr, k) = until(old(self).data@, old(self).pos as int, end);
                &&& final(self).pos == k
                &&& match r {
                    Ok(v) => sr == Ok::<Seq<u8>, SqlError>(v@),
                    Err(e) => sr == Err::<Seq<u8>, SqlError>(e),
                }
            }),
    {
        let ghost d = self.data@;
        let ghost j0 = self.pos as int;
        let mut out: Vec<u8> = Vec::new();
        assert(Seq::<u8>::empty() + until(d, j0, end).0->Ok_0 =~= until(d, j0, end).0->Ok_0);
        loop
            invariant
                self.data == old(self).data,
                self.data@ == d,
                self.peeked == old(self).peeked,
                self.pos <= self.data.len(),
                j0 == old(self).pos,
                until(d, j0, end) == Self::lift(out@, until(d, self.pos as int, end)),
            decreases self.data.len() - self.pos,
        {
            let p = self.pos;
            let n = self.data.len();
            if p >= n {
                self.pos = n;
                return Err(SqlError::UnterminatedIdentifier);
            }
            let b = self.data[p];
            if b == end {
                self.pos = p + 1;
                assert(out@ + Seq::<u8>::empty() =~= out@);
                return Ok(out);
            }
            let ghost before = out@;
            out.push(b);
            assert(before + (seq![b] + until(d, p + 1, end).0->Ok_0) =~= out@ + until(
                d,
                p + 1,
                end,
            ).0->Ok_0);
            self.pos = p + 1;
        }
    }

    /// Reads the rest of a word whose first byte, at `pos - 1`, was taken.
    fn read_word(&mut self) -> (r: String)
        requires
            0 < old(self).pos <= old(self).data.len(),
        ensures
            final(self).data == old(self).data,
            final(self).peeked == old(self).peeked,
            final(self).pos == word_end(old(self).data@, old(self).pos as int),
            r@ == utf8_lossy(
                old(self).data@.subrange(old(self).pos - 1, word_end(old(self).data@, old(self).pos as int)),
            ),
    {
        let ghost d = self.data@;
        let start = self.pos - 1;
        let mut out: Vec<u8> = Vec::new();
        out.push(self.data[start]);
        assert(out@ =~= d.subrange(start as int, self.pos as int));
        while self.pos < self.data.len() && word_byte(self.data[self.pos])
            invariant
                self.data == old(self).data,
                self.data@ == d,
                self.peeked == old(self).peeked,
                start + 1 <= self.pos <= self.data.len(),
                start == old(self).pos - 1,
                word_end(d, self.pos as int) == word_end(d, old(self).pos as int),
                out@ == d.subrange(start as int, self.pos as int),
            decreases self.data.len() - self.pos,
        {
            out.push(self.data[self.pos]);
            self.pos = self.pos + 1;
            assert(out@ =~= d.subrange(start as int, self.pos as int));
        }
        lossy_string(out.as_slice())
    }

    fn skip_line(&mut self)
        requires
            old(self).pos <= old(self).data.len(),
        ensures
            final(self).data == old(self).data,
            final(self).peeked == old(self).peeked,
            final(self).pos == skip_line(old(self).data@, old(self).pos as int),
    {
        let ghost d = self.data@;
        while self.pos < self.data.len()
            invariant
                self.data == old(self).data,
                self.data@ == d,
                self.peeked == old(self).peeked,
                self.pos <= self.data.len(),
                skip_line(d, self.pos as int) == skip_line(d, old(self).pos as int),
            decreases self.data.len() - self.pos,
        {
            let b = self.data[self.pos];
            self.pos = self.pos + 1;
            if b == 10 {
                return;
            }
        }
    }

    fn skip_block_comment(&mut self)
        requires
            old(self).pos <= old(self).data.len(),
        ensures
            final(self).data == old(self).data,
            final(self).peeked == old(self).peeked,
            final(self).pos == skip_block(old(self).data@, old(self).pos as int, 0),
    {
        let ghost d = self.data@;
        let mut prev: u8 = 0;
        while self.pos < self.data.len()
            invariant
                self.data == old(self).data,
                self.data@ == d,
                self.peeked == old(self).peeked,
                self.pos <= self.data.len(),
                skip_block(d, self.pos as int, prev) == skip_block(d, old(self).pos as int, 0),
            decreases self.data.len() - self.pos,
        {
            let b = self.data[self.pos];
            self.pos = self.pos + 1;
            if prev == 42 && b == 47 {
                return;
            }
            prev = b;
        }
    }

    fn text_token(kind: u8, r: Result<Vec<u8>, SqlError>) -> (t: Result<Option<Token>, SqlError>)
        requires
            kind <= 1,
        ensures
            res_view(t) == text_tok(
                kind as int,
                match r {
                    Ok(v) => Ok::<Seq<u8>, SqlError>(v@),
                    Err(e) => Err(e),
                },
            ),
    {
        match r {
            Ok(v) => {
                let s = lossy_string(v.as_slice());
                if kind == 0 {
                    Ok(Some(TokenOf::Str(s)))
                } else {
                    Ok(Some(TokenOf::Ident(s)))
                }
            },
            Err(e) => Err(e),
        }
    }

    /// Lexes the next token from the buffer (ignoring any looked-ahead token).
    fn lex_token(&mut self) -> (r: Result<Option<Token>, SqlError>)
        requires
            old(self).pos <= old(self).data.len(),
        ensures
            final(self).data == old(self).data,
            final(self).peeked == old(self).peeked,
            (res_view(r), final(self).pos as int) == lex(old(self).data@, old(self).pos as int),
    {
        let ghost d = self.data@;
        loop
            invariant
                self.data == old(self).data,
                self.data@ == d,
                self.peeked == old(self).peeked,
                self.pos <= self.data.len(),
                lex(d, self.pos as int) == lex(d, old(self).pos as int),
            decreases self.data.len() - self.pos,
        {
            let p = self.pos;
            let n = self.data.len();
            if p >= n {
                self.pos = n;
                return Ok(None);
            }
            let b = self.data[p];
            self.pos = p + 1;
            if ws_byte(b) {
                continue;
            }
            if b == 39 || b == 34 {
                let r = self.read_quoted(b);
                return Self::text_token(0, r);
            } else if b == 96 {
                let r = self.read_backtick();
                return Self::text_token(1, r);
            } else if b == 91 {
                let r = self.read_until(93);
                return Self::text_token(1, r);
            } else if b == 40 {
                return Ok(Some(TokenOf::LParen));
            } else if b == 41 {
                return Ok(Some(TokenOf::RParen));
            } else if b == 44 {
                return Ok(Some(TokenOf::Comma));
            } else if b == 59 {
                return Ok(Some(TokenOf::Semi));
            } else if b == 35 {
                proof {
                    lemma_skip_line(d, p + 1);
                }
                self.skip_line();
                continue;
            } else if b == 45 && p + 1 < n && self.data[p + 1] == 45 {
                self.pos = p + 2;
                proof {
                    lemma_skip_line(d, p + 2);
                }
                self.skip_line();
                continue;
            } else if b == 47 {
                if p + 1 < n && self.data[p + 1] == 42 {
                    self.pos = p + 2;
                    proof {
                        lemma_skip_block(d, p + 2, 0);
                    }
                    self.skip_block_comment();
                }
                continue;
            } else {
                let w = self.read_word();
                return Ok(Some(TokenOf::Word(w)));
            }
        }
    }

    /// Takes the next token.
    pub fn next_token(&mut self) -> (r: Result<Option<Token>, SqlError>)
        requires
            old(self).wf(),
        ensures
            final(self).wf(),
            final(self).data() == old(self).data(),
            (res_view(r), final(self).st()) == next_tok(old(self).data(), old(self).st()),
    {
        proof {
            lemma_next_tok(self.data(), self.st());
        }
        match self.peeked.take() {
            Some(t) => Ok(Some(t)),
            None => self.lex_token(),
        }
    }

    /// Looks at the next token and tells whether it is a word that starts
    /// with `.` (the continuation of a qualified name); the token is kept.
    pub fn peek_dotted_word(&mut self) -> (r: Result<bool, SqlError>)
        requires
            old(self).wf(),
        ensures
            final(self).wf(),
            final(self).data() == old(self).data(),
            ({
                let (p, st) = peek_tok(old(self).data(), old(self).st());
                &&& final(self).st() == st
                &&& match p {
                    Ok(t) => r == Ok::<bool, SqlError>(dotted(t)),
                    Err(e) => r == Err::<bool, SqlError>(e),
                }
            }),
    {
        proof {
            lemma_peek_tok(self.data(), self.st());
        }
        if self.peeked.is_none() {
            match self.lex_token() {
                Ok(t) => {
                    self.peeked = t;
                },
                Err(e) => return Err(e),
            }
        }
        match &self.peeked {
            Some(TokenOf::Word(w)) => Ok(starts_with_dot(w)),
            _ => Ok(false),
        }
    }
}

/// The token is a word whose first character is `.`.
pub open spec fn dotted(t: Option<TokV>) -> bool {
    match t {
        Some(TokenOf::Word(w)) => w.len() > 0 && w[0] == '.',
        _ => false,
    }
}

fn starts_with_dot(s: &String) -> (r: bool)
    ensures
        r == (s@.len() > 0 && s@[0] == '.'),
{
    let cs = crate::text::chars_of(s.as_str());
    cs.len() > 0 && cs[0] == '.'
}

} // verus!
