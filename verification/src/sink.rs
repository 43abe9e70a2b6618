//! The match sink's text encoding: one line for each match event.
//!
//! A line holds the signature in base 58, a space, the time of the match in
//! double quotes, and a line feed. The time is written after
//! [`TIMESTAMP_PATTERN`], in UTC.

use std::fmt::Write;
use vstd::prelude::*;
use vstd::string::StringExecFns;
use crate::record::Signature;
use crate::scanner::MatchEvent;

verus! {

/// How the time of a match is written: weekday, day, month, year, time of day
/// to the millisecond, and the offset from UTC.
pub const TIMESTAMP_PATTERN: &'static str = "%a, %d %b %Y %H:%M:%S%.3f %z";

/// A signature as text: what `solana_sdk::signature::Signature` displays for
/// these 64 bytes.
pub uninterp spec fn signature_text(bytes: Seq<u8>) -> Seq<char>;

/// A time as text: what `chrono` writes for the instant `millis` milliseconds
/// after the Unix epoch, in UTC, under the format string `pattern`; `None`
/// where the instant is outside the range of `chrono`'s dates or the format
/// string is not valid.
pub uninterp spec fn timestamp_text(millis: i64, pattern: Seq<char>) -> Option<Seq<char>>;

/// Makes a `solana_sdk::signature::Signature` of the bytes and returns what
/// its `Display` writes. The contract only names that text.
#[verifier::external_body]
fn render_signature(signature: &Signature) -> (r: String)
    ensures
        r@ == signature_text(signature@),
{
    solana_sdk::signature::Signature::from(signature.bytes).to_string()
}

/// Makes a `chrono::DateTime<Utc>` with `DateTime::from_timestamp_millis` and
/// writes it with `DateTime::format` under `pattern`. `None` where `chrono`
/// has no such instant or rejects the format string. The contract only names
/// the outcome.
#[verifier::external_body]
fn render_timestamp(millis: i64, pattern: &str) -> (r: Option<String>)
    ensures
        r matches Some(text) ==> timestamp_text(millis, pattern@) == Some(text@),
        r is None ==> timestamp_text(millis, pattern@) is None,
{
    let instant = chrono::DateTime::<chrono::Utc>::from_timestamp_millis(millis)?;
    let mut text = String::new();
    write!(text, "{}", instant.format(pattern)).ok()?;
    Some(text)
}

/// The line for a signature and a time, both already as text.
pub open spec fn line_text(signature: Seq<char>, timestamp: Seq<char>) -> Seq<char> {
    signature + seq![' ', '"'] + timestamp + seq!['"', '\n']
}

/// Puts a line together from a signature and a time, both already as text.
pub fn compose_line(signature: &str, timestamp: &str) -> (r: String)
    ensures
        r@ == line_text(signature@, timestamp@),
{
    let mut line = String::from_str(signature);
    line.append(" \"");
    line.append(timestamp);
    line.append("\"\n");
    proof {
        reveal_strlit(" \"");
        reveal_strlit("\"\n");
        assert(" \""@ =~= seq![' ', '"']);
        assert("\"\n"@ =~= seq!['"', '\n']);
    }
    line
}

/// The line for `event`, or `None` where its time cannot be written.
pub fn log_line(event: &MatchEvent) -> (r: Option<String>)
    ensures
        match timestamp_text(event.timestamp, TIMESTAMP_PATTERN@) {
            Some(time) => r matches Some(line) && line@ == line_text(
                signature_text(event.signature@),
                time,
            ),
            None => r is None,
        },
{
    match render_timestamp(event.timestamp, TIMESTAMP_PATTERN) {
        Some(time) => {
            let signature = render_signature(&event.signature);
            Some(compose_line(signature.as_str(), time.as_str()))
        },
        None => None,
    }
}

} // verus!
