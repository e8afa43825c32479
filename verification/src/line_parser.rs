use vstd::prelude::*;
use crate::Error;

verus! {

/// One decoded input line: the free-text bodies of a question and its tags.
pub struct LineParser {
    pub texts: Vec<String>,
    pub tags: Vec<String>,
}

/// Whether the line decodes: it is a JSON object whose `texts` and `tags`
/// fields are arrays of strings. The decode is a function of the line alone.
pub uninterp spec fn line_ok(s: Seq<char>) -> bool;

/// The strings of the line's `texts` array, in order, when the line decodes.
pub uninterp spec fn line_texts(s: Seq<char>) -> Seq<Seq<char>>;

/// The strings of the line's `tags` array, in order, when the line decodes.
pub uninterp spec fn line_tags(s: Seq<char>) -> Seq<Seq<char>>;

/// Relies on serde_json: `from_str::<Value>` decodes the line, `Value::get`
/// looks the two fields up on the object, `Value::as_array` and
/// `Value::as_str` read them as arrays of strings. Returns the two arrays
/// when every step succeeds and nothing otherwise; none of the calls panics.
#[verifier::external_body]
fn decode_line(line: &str) -> (r: Option<(Vec<String>, Vec<String>)>)
    ensures
        r is Some <==> line_ok(line@),
        r matches Some(p) ==> p.0.deep_view() == line_texts(line@) && p.1.deep_view()
            == line_tags(line@),
{
    let v: serde_json::Value = serde_json::from_str(line).ok()?;
    let texts = v.get("texts")?.as_array()?.iter().map(|t| t.as_str().map(str::to_string))
        .collect::<Option<Vec<String>>>()?;
    let tags = v.get("tags")?.as_array()?.iter().map(|t| t.as_str().map(str::to_string))
        .collect::<Option<Vec<String>>>()?;
    Some((texts, tags))
}

impl LineParser {
    /// Decode one line of input. Exactly the lines satisfying `line_ok` — the
    /// JSON objects carrying `texts` and `tags` arrays of strings — decode to
    /// their two arrays; every other line is a `MalformedRecord`.
    pub fn parse(line: &str) -> (r: Result<LineParser, Error>)
        ensures
            r is Ok <==> line_ok(line@),
            r matches Ok(rec) ==> rec.texts.deep_view() == line_texts(line@)
                && rec.tags.deep_view() == line_tags(line@),
            r matches Err(e) ==> e == Error::MalformedRecord,
    {
        match decode_line(line) {
            Some(p) => Ok(LineParser { texts: p.0, tags: p.1 }),
            None => Err(Error::MalformedRecord),
        }
    }
}

} // verus!
