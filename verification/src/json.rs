//! JSON input as rows: the input's shape, its column schema (every object
//! key, in the order keys first appear), and each object as a row aligned
//! to that schema.
//!
//! A parsed JSON value is held here as a `JsonRecord`: an object keeps its
//! keys with their values as cells, anything else only its kind. A cell
//! keeps a scalar as such; a nested array or object comes as its compact
//! JSON text.

use vstd::prelude::*;
use crate::text::str_equal;

verus! {

/// The kind of a JSON value.
#[derive(Copy, Clone, Debug, PartialEq, Eq, Structural)]
pub enum JsonKind {
    Null,
    Bool,
    Number,
    String,
    Array,
    Object,
}

/// One value of an object.
#[derive(Debug)]
pub enum JsonCell {
    Null,
    Bool(bool),
    /// A number, as the parser prints it.
    Number(String),
    Text(String),
    /// An array or object, as compact JSON text.
    Nested(String),
}

/// One top-level value of the input.
#[derive(Debug)]
pub enum JsonRecord {
    /// An object: its keys and values, in the order the input has them.
    Object(Vec<(String, JsonCell)>),
    /// Any other value; only its kind is kept.
    Other(JsonKind),
}

/// How the input is laid out.
#[derive(Copy, Clone, Debug, PartialEq, Eq, Structural)]
pub enum JsonShape {
    /// One top-level array of values.
    Array,
    /// Values one after another (NDJSON or concatenated).
    Stream,
}

/// Why JSON input cannot be read as rows.
#[derive(Copy, Clone, Debug, PartialEq, Eq, Structural)]
pub enum JsonError {
    /// No object of the input has a key.
    NoKeys,
    /// A top-level value is not an object.
    NotObject(JsonKind),
}

// ----------------------------------------------------------------------
// shape
// ----------------------------------------------------------------------

/// `u8::is_ascii_whitespace`: space, tab, line feed, form feed, carriage
/// return.
pub open spec fn ascii_ws(b: u8) -> bool {
    b == 0x20 || b == 0x09 || b == 0x0A || b == 0x0C || b == 0x0D
}

/// The shape of an input from its first bytes: an array when the first
/// byte that is not white space is `[`, a stream otherwise; `None` when
/// the bytes are all white space (more input must be looked at, or the
/// input is empty).
pub open spec fn shape_of(head: Seq<u8>) -> Option<JsonShape>
    decreases head.len(),
{
    if head.len() == 0 {
        None
    } else if ascii_ws(head[0]) {
        shape_of(head.drop_first())
    } else if head[0] == 0x5B {
        Some(JsonShape::Array)
    } else {
        Some(JsonShape::Stream)
    }
}

proof fn lemma_shape_skip(head: Seq<u8>, i: int)
    requires
        0 <= i <= head.len(),
        forall|k: int| 0 <= k < i ==> ascii_ws(#[trigger] head[k]),
    ensures
        shape_of(head) == shape_of(head.subrange(i, head.len() as int)),
    decreases i,
{
    if i > 0 {
        lemma_shape_skip(head.drop_first(), i - 1);
        assert(head.drop_first().subrange(i - 1, head.drop_first().len() as int) =~= head.subrange(
            i,
            head.len() as int,
        ));
    } else {
        assert(head.subrange(0, head.len() as int) =~= head);
    }
}

/// The shape of the input read so far.
pub fn detect_shape(head: &[u8]) -> (r: Option<JsonShape>)
    ensures
        r == shape_of(head@),
{
    let mut i: usize = 0;
    while i < head.len()
        invariant
            i <= head.len(),
            forall|k: int| 0 <= k < i ==> ascii_ws(#[trigger] head@[k]),
        decreases head.len() - i,
    {
        let b = head[i];
        if !(b == 0x20 || b == 0x09 || b == 0x0A || b == 0x0C || b == 0x0D) {
            proof {
                lemma_shape_skip(head@, i as int);
            }
            if b == 0x5B {
                return Some(JsonShape::Array);
            }
            return Some(JsonShape::Stream);
        }
        i += 1;
    }
    proof {
        lemma_shape_skip(head@, i as int);
    }
    None
}

// ----------------------------------------------------------------------
// cells
// ----------------------------------------------------------------------

/// The text a cell is written as: nothing for null, `true`/`false`, a
/// number as printed, a string as is, nested values as compact JSON.
pub open spec fn cell_text(c: JsonCell) -> Seq<char> {
    match c {
        JsonCell::Null => Seq::empty(),
        JsonCell::Bool(b) => if b { "true"@ } else { "false"@ },
        JsonCell::Number(s) => s@,
        JsonCell::Text(s) => s@,
        JsonCell::Nested(s) => s@,
    }
}

/// A cell as text.
pub fn value_to_string(c: &JsonCell) -> (r: String)
    ensures
        r@ == cell_text(*c),
{
    match c {
        JsonCell::Null => String::new(),
        JsonCell::Bool(b) => if *b {
            String::from_str("true")
        } else {
            String::from_str("false")
        },
        JsonCell::Number(s) => s.clone(),
        JsonCell::Text(s) => s.clone(),
        JsonCell::Nested(s) => s.clone(),
    }
}

pub open spec fn kind_name(k: JsonKind) -> Seq<char> {
    match k {
        JsonKind::Null => "null"@,
        JsonKind::Bool => "bool"@,
        JsonKind::Number => "number"@,
        JsonKind::String => "string"@,
        JsonKind::Array => "array"@,
        JsonKind::Object => "object"@,
    }
}

/// The name of a kind, as error messages show it.
pub fn kind_of(k: JsonKind) -> (r: String)
    ensures
        r@ == kind_name(k),
{
    match k {
        JsonKind::Null => String::from_str("null"),
        JsonKind::Bool => String::from_str("bool"),
        JsonKind::Number => String::from_str("number"),
        JsonKind::String => String::from_str("string"),
        JsonKind::Array => String::from_str("array"),
        JsonKind::Object => String::from_str("object"),
    }
}

// ----------------------------------------------------------------------
// schema
// ----------------------------------------------------------------------

/// The keys of a record, in order: none for a value that is not an object.
pub open spec fn record_keys(r: JsonRecord) -> Seq<Seq<char>> {
    match r {
        JsonRecord::Object(pairs) => pairs@.map_values(|kv: (String, JsonCell)| kv.0@),
        JsonRecord::Other(_) => Seq::empty(),
    }
}

/// Every key of every record, in input order, repeats included.
pub open spec fn all_keys(recs: Seq<JsonRecord>) -> Seq<Seq<char>>
    decreases recs.len(),
{
    if recs.len() == 0 {
        Seq::empty()
    } else {
        all_keys(recs.drop_last()) + record_keys(recs.last())
    }
}

/// Each distinct element once, where it first occurs.
pub open spec fn first_occurrences(s: Seq<Seq<char>>) -> Seq<Seq<char>>
    decreases s.len(),
{
    if s.len() == 0 {
        Seq::empty()
    } else {
        let d = first_occurrences(s.drop_last());
        if d.contains(s.last()) {
            d
        } else {
            d.push(s.last())
        }
    }
}

/// The column schema of the input: the union of the object keys, in the
/// order each key first appears.
pub open spec fn schema_of(recs: Seq<JsonRecord>) -> Seq<Seq<char>> {
    first_occurrences(all_keys(recs))
}

proof fn lemma_first_occurrences(s: Seq<Seq<char>>)
    ensures
        forall|k: Seq<char>| first_occurrences(s).contains(k) <==> s.contains(k),
        forall|a: int, b: int| 0 <= a < b < first_occurrences(s).len() ==> first_occurrences(s)[a]
            != first_occurrences(s)[b],
    decreases s.len(),
{
    if s.len() > 0 {
        let p = s.drop_last();
        lemma_first_occurrences(p);
        assert forall|k: Seq<char>| first_occurrences(s).contains(k) <==> s.contains(k) by {
            if s.contains(k) && k != s.last() {
                let i = choose|i: int| 0 <= i < s.len() && s[i] == k;
                assert(p[i] == k);
            }
            if p.contains(k) {
                let i = choose|i: int| 0 <= i < p.len() && p[i] == k;
                assert(s[i] == k);
            }
            if k == s.last() {
                assert(s[s.len() - 1] == k);
            }
            if !first_occurrences(p).contains(s.last()) {
                let d = first_occurrences(p);
                if d.push(s.last()).contains(k) && k != s.last() {
                    let i = choose|i: int| 0 <= i < d.push(s.last()).len() && d.push(s.last())[i] == k;
                    assert(d[i] == k);
                }
                if d.contains(k) {
                    let i = choose|i: int| 0 <= i < d.len() && d[i] == k;
                    assert(d.push(s.last())[i] == k);
                }
                assert(d.push(s.last())[d.len() as int] == s.last());
            }
        }
    }
}

/// The schema holds every key of every object and nothing else, and each
/// key once.
pub proof fn law_schema_holds_each_key_once(recs: Seq<JsonRecord>)
    ensures
        forall|k: Seq<char>| schema_of(recs).contains(k) <==> all_keys(recs).contains(k),
        forall|a: int, b: int| 0 <= a < b < schema_of(recs).len() ==> schema_of(recs)[a] != schema_of(recs)[b],
{
    lemma_first_occurrences(all_keys(recs));
}

fn contains_key(cols: &Vec<String>, k: &String) -> (r: bool)
    ensures
        r == cols.deep_view().contains(k@),
{
    let mut i: usize = 0;
    while i < cols.len()
        invariant
            i <= cols.len(),
            forall|j: int| 0 <= j < i ==> cols.deep_view()[j] != k@,
        decreases cols.len() - i,
    {
        if str_equal(cols[i].as_str(), k.as_str()) {
            assert(cols.deep_view()[i as int] == k@);
            return true;
        }
        i += 1;
    }
    false
}

/// Collects the column schema while the input streams by: the keys of
/// every record added so far, each once, in the order keys first appeared.
pub struct SchemaBuilder {
    cols: Vec<String>,
    seen: Ghost<Seq<Seq<char>>>,
}

impl SchemaBuilder {
    /// Every key of the records added so far, in order, repeats included.
    pub closed spec fn keys_seen(&self) -> Seq<Seq<char>> {
        self.seen@
    }

    #[verifier::type_invariant]
    closed spec fn columns_are_first_occurrences(&self) -> bool {
        self.cols.deep_view() == first_occurrences(self.seen@)
    }

    /// A builder that has seen nothing.
    pub fn new() -> (b: Self)
        ensures
            b.keys_seen() == Seq::<Seq<char>>::empty(),
    {
        let cols: Vec<String> = Vec::new();
        assert(cols.deep_view() =~= first_occurrences(Seq::<Seq<char>>::empty()));
        SchemaBuilder { cols, seen: Ghost(Seq::empty()) }
    }

    /// Takes in the keys of one record (none for a value that is not an
    /// object).
    pub fn add(self, record: &JsonRecord) -> (b: Self)
        ensures
            b.keys_seen() == self.keys_seen() + record_keys(*record),
    {
        proof {
            use_type_invariant(&self);
        }
        let SchemaBuilder { cols, seen } = self;
        let mut cols = cols;
        let ghost base = seen@;
        match record {
            JsonRecord::Object(pairs) => {
                let mut j: usize = 0;
                while j < pairs.len()
                    invariant
                        j <= pairs.len(),
                        *record == JsonRecord::Object(*pairs),
                        cols.deep_view() == first_occurrences(base + record_keys(*record).take(j as int)),
                    decreases pairs.len() - j,
                {
                    let ghost prev = base + record_keys(*record).take(j as int);
                    let ghost next = base + record_keys(*record).take(j + 1);
                    assert(next.drop_last() =~= prev);
                    assert(next.last() == pairs@[j as int].0@);
                    let k = &pairs[j].0;
                    if !contains_key(&cols, k) {
                        cols.push(k.clone());
                        assert(cols.deep_view() =~= first_occurrences(prev).push(k@));
                    }
                    j += 1;
                }
                assert(record_keys(*record).take(pairs.len() as int) =~= record_keys(*record));
                SchemaBuilder { cols, seen: Ghost(base + record_keys(*record)) }
            },
            JsonRecord::Other(_) => {
                assert(base + record_keys(*record) =~= base);
                SchemaBuilder { cols, seen: Ghost(base + record_keys(*record)) }
            },
        }
    }

    /// The schema: the distinct keys in order of first appearance; an
    /// error when no key was seen.
    pub fn finish(self) -> (r: Result<Vec<String>, JsonError>)
        ensures
            first_occurrences(self.keys_seen()).len() == 0 ==> r == Err::<Vec<String>, JsonError>(
                JsonError::NoKeys,
            ),
            first_occurrences(self.keys_seen()).len() > 0 ==> (r matches Ok(cols) && cols.deep_view()
                == first_occurrences(self.keys_seen())),
    {
        proof {
            use_type_invariant(&self);
        }
        if self.cols.len() == 0 {
            Err(JsonError::NoKeys)
        } else {
            Ok(self.cols)
        }
    }
}

/// The column names of JSON input: every key, in the order keys first
/// appear; an error when there is none.
pub fn json_schema(records: &Vec<JsonRecord>) -> (r: Result<Vec<String>, JsonError>)
    ensures
        schema_of(records@).len() == 0 ==> r == Err::<Vec<String>, JsonError>(JsonError::NoKeys),
        schema_of(records@).len() > 0 ==> (r matches Ok(cols) && cols.deep_view() == schema_of(records@)),
{
    let mut b = SchemaBuilder::new();
    let mut i: usize = 0;
    while i < records.len()
        invariant
            i <= records.len(),
            b.keys_seen() == all_keys(records@.take(i as int)),
        decreases records.len() - i,
    {
        assert(records@.take(i + 1).drop_last() =~= records@.take(i as int));
        b = b.add(&records[i]);
        i += 1;
    }
    assert(records@.take(records.len() as int) =~= records@);
    b.finish()
}

// ----------------------------------------------------------------------
// rows
// ----------------------------------------------------------------------

/// The value under key `k`: the first pair with that key.
pub open spec fn lookup(pairs: Seq<(String, JsonCell)>, k: Seq<char>) -> Option<JsonCell>
    decreases pairs.len(),
{
    if pairs.len() == 0 {
        None
    } else if pairs[0].0@ == k {
        Some(pairs[0].1)
    } else {
        lookup(pairs.drop_first(), k)
    }
}

/// The text of column `k` in an object: the key's cell as text, nothing
/// when the object lacks the key.
pub open spec fn column_text(pairs: Seq<(String, JsonCell)>, k: Seq<char>) -> Seq<char> {
    match lookup(pairs, k) {
        Some(c) => cell_text(c),
        None => Seq::empty(),
    }
}

proof fn lemma_lookup_scan(pairs: Seq<(String, JsonCell)>, k: Seq<char>, m: int)
    requires
        0 <= m <= pairs.len(),
        forall|t: int| 0 <= t < m ==> (#[trigger] pairs[t]).0@ != k,
    ensures
        lookup(pairs, k) == lookup(pairs.subrange(m, pairs.len() as int), k),
    decreases m,
{
    if m > 0 {
        lemma_lookup_scan(pairs.drop_first(), k, m - 1);
        assert(pairs.drop_first().subrange(m - 1, pairs.drop_first().len() as int) =~= pairs.subrange(
            m,
            pairs.len() as int,
        ));
        assert(pairs[0].0@ != k);
    } else {
        assert(pairs.subrange(0, pairs.len() as int) =~= pairs);
    }
}

fn column_cell(pairs: &Vec<(String, JsonCell)>, k: &String) -> (r: String)
    ensures
        r@ == column_text(pairs@, k@),
{
    let mut m: usize = 0;
    while m < pairs.len()
        invariant
            m <= pairs.len(),
            forall|t: int| 0 <= t < m ==> (#[trigger] pairs@[t]).0@ != k@,
        decreases pairs.len() - m,
    {
        if str_equal(pairs[m].0.as_str(), k.as_str()) {
            proof {
                lemma_lookup_scan(pairs@, k@, m as int);
            }
            return value_to_string(&pairs[m].1);
        }
        m += 1;
    }
    proof {
        lemma_lookup_scan(pairs@, k@, m as int);
    }
    String::new()
}

/// One top-level value as a row aligned to `columns`: each column's text
/// (nothing where the object lacks the key); a value that is not an
/// object is refused with its kind.
pub fn json_row(columns: &Vec<String>, record: &JsonRecord) -> (r: Result<Vec<String>, JsonError>)
    ensures
        match *record {
            JsonRecord::Object(pairs) => r matches Ok(row) && row.len() == columns.len() && forall|i: int|
                0 <= i < columns.len() ==> (#[trigger] row@[i])@ == column_text(pairs@, columns@[i]@),
            JsonRecord::Other(k) => r == Err::<Vec<String>, JsonError>(JsonError::NotObject(k)),
        },
{
    match record {
        JsonRecord::Object(pairs) => {
            let mut row: Vec<String> = Vec::new();
            let mut i: usize = 0;
            while i < columns.len()
                invariant
                    i <= columns.len(),
                    row.len() == i,
                    forall|a: int| 0 <= a < i ==> (#[trigger] row@[a])@ == column_text(pairs@, columns@[a]@),
                decreases columns.len() - i,
            {
                let c = column_cell(pairs, &columns[i]);
                row.push(c);
                i += 1;
            }
            Ok(row)
        },
        JsonRecord::Other(k) => Err(JsonError::NotObject(*k)),
    }
}

} // verus!
