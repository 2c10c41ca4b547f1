//! Delimited text input (CSV, TXT): decoding the input's bytes, splitting
//! them into records, and the column names and rows those records give.

use vstd::prelude::*;
use crate::text::{synthetic_column, synthetic_name};

verus! {

/// Why delimited input cannot be read.
#[derive(Copy, Clone, Debug, PartialEq, Eq, Structural)]
pub enum CsvError {
    /// The encoding label names no encoding known to encoding_rs.
    UnknownEncoding,
    /// The csv parser refused the text.
    Unreadable,
    /// The input has no record at all.
    NoRows,
}

// ----------------------------------------------------------------------
// decoding and parsing, by encoding_rs_io and csv
// ----------------------------------------------------------------------

/// The text encoding_rs_io decodes from `data` with the encoding that
/// `label` names; `None` when encoding_rs knows no such label.
pub uninterp spec fn decoded_text(data: Seq<u8>, label: Seq<char>) -> Option<Seq<char>>;

/// encoding_rs `Encoding::for_label`, then an encoding_rs_io
/// `DecodeReaderBytes` over the bytes with that encoding as the explicit
/// one (so a byte order mark does not override it), read to the end. The
/// contract names the text; how each encoding maps bytes to characters is
/// left to encoding_rs.
#[verifier::external_body]
fn decode_input(data: &[u8], label: &str) -> (r: Option<String>)
    ensures
        match r {
            Some(s) => decoded_text(data@, label@) == Some(s@),
            None => decoded_text(data@, label@) is None,
        },
{
    let enc = match encoding_rs::Encoding::for_label(label.as_bytes()) {
        Some(e) => e,
        None => return None,
    };
    let mut reader = encoding_rs_io::DecodeReaderBytesBuilder::new().encoding(Some(enc)).build(data);
    let mut text = String::new();
    match std::io::Read::read_to_string(&mut reader, &mut text) {
        Ok(_) => Some(text),
        Err(_) => None,
    }
}

/// The records the csv crate reads from a text with the given delimiter
/// and quoting, no header row, rows of any width; `None` when it refuses
/// the text.
pub uninterp spec fn csv_records(text: Seq<char>, delimiter: u8, quoting: bool) -> Option<Seq<Seq<Seq<char>>>>;

pub open spec fn records_view(r: Option<Vec<Vec<String>>>) -> Option<Seq<Seq<Seq<char>>>> {
    match r {
        Some(v) => Some(v.deep_view()),
        None => None,
    }
}

/// csv `ReaderBuilder` with the delimiter, `has_headers(false)`,
/// `flexible(true)` and the quoting, over the text; every record's fields
/// as strings. The contract names the records; the CSV grammar is left to
/// the csv crate.
#[verifier::external_body]
fn parse_csv(text: &str, delimiter: u8, quoting: bool) -> (r: Option<Vec<Vec<String>>>)
    ensures
        records_view(r) == csv_records(text@, delimiter, quoting),
{
    let mut reader = csv::ReaderBuilder::new()
        .delimiter(delimiter)
        .has_headers(false)
        .flexible(true)
        .quoting(quoting)
        .from_reader(text.as_bytes());
    reader.records()
        .map(|rec| rec.map(|rec| rec.iter().map(|f| f.to_string()).collect::<Vec<String>>()))
        .collect::<Result<Vec<Vec<String>>, csv::Error>>()
        .ok()
}

// ----------------------------------------------------------------------
// column names and rows
// ----------------------------------------------------------------------

/// The column names for a first record: the record itself when it is a
/// header row, else the synthetic names `c0`, `c1`, ... one per field.
pub open spec fn header_names(first: Seq<Seq<char>>, has_headers: bool) -> Seq<Seq<char>> {
    if has_headers {
        first
    } else {
        Seq::new(first.len(), |i: int| synthetic_name(i as nat))
    }
}

/// The data rows among the records: all of them, or all but the first when
/// the first is a header row.
pub open spec fn data_rows(recs: Seq<Seq<Seq<char>>>, has_headers: bool) -> Seq<Seq<Seq<char>>> {
    if has_headers {
        recs.drop_first()
    } else {
        recs
    }
}

/// What reading delimited input gives: the column names and the data rows,
/// or why there are none.
pub open spec fn csv_input(
    data: Seq<u8>,
    label: Seq<char>,
    delimiter: u8,
    quoting: bool,
    has_headers: bool,
) -> Result<(Seq<Seq<char>>, Seq<Seq<Seq<char>>>), CsvError> {
    match decoded_text(data, label) {
        None => Err(CsvError::UnknownEncoding),
        Some(text) => match csv_records(text, delimiter, quoting) {
            None => Err(CsvError::Unreadable),
            Some(recs) => if recs.len() == 0 {
                Err(CsvError::NoRows)
            } else {
                Ok((header_names(recs[0], has_headers), data_rows(recs, has_headers)))
            },
        },
    }
}

/// Column names from the input's first record (`None` when the input has
/// no record).
pub fn csv_headers(first: Option<Vec<String>>, has_headers: bool) -> (r: Result<Vec<String>, CsvError>)
    ensures
        first is None ==> r == Err::<Vec<String>, CsvError>(CsvError::NoRows),
        first matches Some(f) ==> (r matches Ok(names) && names.deep_view() == header_names(
            f.deep_view(),
            has_headers,
        )),
{
    match first {
        None => Err(CsvError::NoRows),
        Some(f) => {
            if has_headers {
                return Ok(f);
            }
            let mut names: Vec<String> = Vec::new();
            let mut i: usize = 0;
            while i < f.len()
                invariant
                    i <= f.len(),
                    names.deep_view() == Seq::new(i as nat, |k: int| synthetic_name(k as nat)),
                decreases f.len() - i,
            {
                let ghost before = names.deep_view();
                let c = synthetic_column(i);
                names.push(c);
                assert(names.deep_view() =~= before.push(synthetic_name(i as nat)));
                i += 1;
            }
            Ok(names)
        },
    }
}

pub open spec fn input_view(r: Result<(Vec<String>, Vec<Vec<String>>), CsvError>) -> Result<(Seq<Seq<char>>, Seq<Seq<Seq<char>>>), CsvError> {
    match r {
        Ok((h, rows)) => Ok((h.deep_view(), rows.deep_view())),
        Err(e) => Err(e),
    }
}

/// Reads delimited input from its bytes: decodes them with the encoding
/// `label` names, splits the text into records, and gives the column names
/// (from the first record) and the data rows.
pub fn read_csv(data: &[u8], label: &str, delimiter: u8, quoting: bool, has_headers: bool) -> (r: Result<(Vec<String>, Vec<Vec<String>>), CsvError>)
    ensures
        input_view(r) == csv_input(data@, label@, delimiter, quoting, has_headers),
{
    let text = match decode_input(data, label) {
        None => return Err(CsvError::UnknownEncoding),
        Some(t) => t,
    };
    let recs = match parse_csv(text.as_str(), delimiter, quoting) {
        None => return Err(CsvError::Unreadable),
        Some(v) => v,
    };
    if recs.len() == 0 {
        return Err(CsvError::NoRows);
    }
    let ghost rv = recs.deep_view();
    let mut recs = recs;
    let first = if has_headers {
        recs.remove(0)
    } else {
        recs[0].clone()
    };
    proof {
        if has_headers {
            assert(recs.deep_view() =~= rv.drop_first());
        }
    }
    assert(first.deep_view() =~= rv[0]);
    let names = match csv_headers(Some(first), has_headers) {
        Ok(n) => n,
        Err(e) => return Err(e),
    };
    Ok((names, recs))
}

} // verus!
