//! The boundary to the outside crates the pipeline leans on: bzip2 for
//! decompression, serde_json for the record schema, url for strict URL
//! recognition, zalgo for combining-mark detection, and std's Unicode
//! numeric-category test. Each result that takes pages to state is given a
//! name; everything downstream is verified against those names.

use std::io::Read;
use vstd::prelude::*;

use crate::tweet::Tweet;

verus! {

/// What decompressing a bzip2 stream held in memory yields: the decoded text,
/// or nothing when the stream is corrupt or not valid UTF-8. A function of the
/// input bytes alone.
pub uninterp spec fn bunzip_of(data: Seq<u8>) -> Option<Seq<char>>;

/// What decoding one line as a post record yields: the `lang` and `text`
/// string fields, or nothing when the line is not a JSON object carrying both
/// as strings. A function of the line alone.
pub uninterp spec fn json_post_of(line: Seq<char>) -> Option<(Seq<char>, Seq<char>)>;

/// Whether a token is a well-formed absolute URL per the url crate's parser.
pub uninterp spec fn is_parseable_url(s: Seq<char>) -> bool;

/// Whether a character is one of the combining marks the zalgo crate counts.
pub uninterp spec fn is_zalgo_char(c: char) -> bool;

/// Whether a character is in a numeric Unicode general category, per std's
/// `char::is_numeric`.
pub uninterp spec fn is_numeric_char(c: char) -> bool;

/// Relies on bzip2's `read::BzDecoder` driven by std's `Read::read_to_string`:
/// decompresses a whole in-memory bzip2 stream and checks it is UTF-8.
#[verifier::external_body]
pub(crate) fn bz_decode(data: &Vec<u8>) -> (r: Option<String>)
    ensures
        match r {
            Some(s) => bunzip_of(data@) == Some(s@),
            None => bunzip_of(data@) is None,
        },
{
    let mut contents = String::new();
    let mut decoder = bzip2::read::BzDecoder::new(data.as_slice());
    match decoder.read_to_string(&mut contents) {
        Ok(_) => Some(contents),
        Err(_) => None,
    }
}

/// Relies on serde_json: `from_str` to decode one line as a JSON value, and
/// `Value::get` / `Value::as_str` to read its `lang` and `text` fields.
#[verifier::external_body]
pub(crate) fn parse_post_line(line: &str) -> (r: Option<Tweet>)
    ensures
        match r {
            Some(t) => json_post_of(line@) == Some((t.lang@, t.text@)),
            None => json_post_of(line@) is None,
        },
{
    let value: serde_json::Value = serde_json::from_str(line).ok()?;
    let lang = value.get("lang")?.as_str()?.to_string();
    let text = value.get("text")?.as_str()?.to_string();
    Some(Tweet { lang, text })
}

/// Relies on url's `Url::parse`: whether the token parses as an absolute URL.
#[verifier::external_body]
pub(crate) fn url_parses(s: &str) -> (r: bool)
    ensures
        r == is_parseable_url(s@),
{
    url::Url::parse(s).is_ok()
}

/// Relies on zalgo's `is_zalgo`: whether the character is one of the crate's
/// fixed list of combining marks.
#[verifier::external_body]
pub(crate) fn char_is_zalgo(c: char) -> (r: bool)
    ensures
        r == is_zalgo_char(c),
{
    zalgo::is_zalgo(c)
}

/// Relies on std's `char::is_numeric`, which vstd leaves unspecified: whether
/// the character's Unicode general category is numeric.
#[verifier::external_body]
pub(crate) fn char_is_numeric(c: char) -> (r: bool)
    ensures
        r == is_numeric_char(c),
{
    c.is_numeric()
}

} // verus!
