//! Normalisation of Combined Log Format timestamps to UTC RFC 3339.

use vstd::prelude::*;

verus! {

/// What chrono makes of `value` read with the strftime-style `format`: the
/// instant it denotes, written in UTC as RFC 3339 with whole seconds and a
/// `Z` suffix, or the text of chrono's parse error. It depends on nothing
/// but its arguments.
pub uninterp spec fn chrono_utc_rfc3339(value: Seq<char>, format: Seq<char>) -> Result<
    Seq<char>,
    Seq<char>,
>;

/// The texts inside a `Result` of two `String`s.
pub open spec fn text_result(r: Result<String, String>) -> Result<Seq<char>, Seq<char>> {
    match r {
        Ok(s) => Ok(s@),
        Err(m) => Err(m@),
    }
}

/// `chrono::DateTime::parse_from_str(value, format)`. The parsed date and
/// time, which carry their UTC offset, are converted to text by
/// `with_timezone(&Utc)` and `to_rfc3339_opts(SecondsFormat::Secs, true)`,
/// and a parse error by its `Display`. The contract names the outcome and
/// says nothing of its content.
#[verifier::external_body]
fn parse_from_str_as_utc(value: &str, format: &str) -> (r: Result<String, String>)
    ensures
        text_result(r) == chrono_utc_rfc3339(value@, format@),
{
    match chrono::DateTime::parse_from_str(value, format) {
        Ok(t) => Ok(t.with_timezone(&chrono::Utc).to_rfc3339_opts(chrono::SecondsFormat::Secs, true)),
        Err(e) => Err(e.to_string()),
    }
}

/// The layout of a Combined Log Format timestamp, such as
/// `07/Oct/2025:07:35:03 +0700`.
pub open spec fn clf_time_format() -> Seq<char> {
    "%d/%b/%Y:%H:%M:%S %z"@
}

/// Reads a Combined Log Format timestamp and renders the instant in UTC as
/// RFC 3339 with whole seconds (`2025-10-07T00:35:03Z`); on failure, the
/// text of chrono's error.
pub fn normalize_timestamp(value: &str) -> (r: Result<String, String>)
    ensures
        text_result(r) == chrono_utc_rfc3339(value@, clf_time_format()),
{
    parse_from_str_as_utc(value, "%d/%b/%Y:%H:%M:%S %z")
}

} // verus!
