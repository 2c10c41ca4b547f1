//! Guessing the character encoding of a text input from its first bytes:
//! a byte order mark decides at once, otherwise chardetng guesses.

use vstd::prelude::*;
use crate::text::{ascii_chars, ascii_lower_chars, to_lowercase};

verus! {

/// The name of the encoding chardetng guesses for a sample.
pub uninterp spec fn chardet_guess(sample: Seq<u8>) -> Seq<char>;

/// chardetng: a detector made by `EncodingDetector::new` with ISO-2022-JP
/// allowed, fed the whole sample as the end of the stream
/// (`feed(sample, true)`, on a fresh detector, so it does not panic),
/// then asked `guess(None, Utf8Detection::Allow)`; the result is the
/// guessed encoding's `Encoding::name`. The contract names that name and
/// states that it is ASCII (every name in encoding_rs's table is); which
/// encoding is guessed is left to chardetng.
#[verifier::external_body]
fn guess_encoding_name(sample: &[u8]) -> (name: String)
    ensures
        name@ == chardet_guess(sample@),
        ascii_chars(name@),
{
    let mut detector = chardetng::EncodingDetector::new(chardetng::Iso2022JpDetection::Allow);
    detector.feed(sample, true);
    detector.guess(None, chardetng::Utf8Detection::Allow).name().to_string()
}

/// The encoding label for a sample: `utf-8`, `utf-16le` or `utf-16be` when
/// the sample opens with that byte order mark, else chardetng's guess in
/// lower case.
pub open spec fn charset_of(sample: Seq<u8>) -> Seq<char> {
    if sample.len() >= 3 && sample[0] == 0xEF && sample[1] == 0xBB && sample[2] == 0xBF {
        "utf-8"@
    } else if sample.len() >= 2 && sample[0] == 0xFF && sample[1] == 0xFE {
        "utf-16le"@
    } else if sample.len() >= 2 && sample[0] == 0xFE && sample[1] == 0xFF {
        "utf-16be"@
    } else {
        ascii_lower_chars(chardet_guess(sample))
    }
}

/// Detects the encoding of a text input from its first bytes (the caller
/// reads at most `ENCODING_SAMPLE_BYTES` of them).
pub fn detect_encoding(sample: &[u8]) -> (r: String)
    ensures
        r@ == charset_of(sample@),
{
    let n = sample.len();
    if n >= 3 && sample[0] == 0xEF && sample[1] == 0xBB && sample[2] == 0xBF {
        return String::from_str("utf-8");
    }
    if n >= 2 && sample[0] == 0xFF && sample[1] == 0xFE {
        return String::from_str("utf-16le");
    }
    if n >= 2 && sample[0] == 0xFE && sample[1] == 0xFF {
        return String::from_str("utf-16be");
    }
    let name = guess_encoding_name(sample);
    to_lowercase(name.as_str())
}

} // verus!
