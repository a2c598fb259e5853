//! Instants: RFC 3339 text and microseconds since the Unix epoch, through
//! chrono.

use vstd::prelude::*;

verus! {

/// The current wall-clock instant, RFC 3339 with milliseconds and `Z`
/// (`chrono::Utc::now().to_rfc3339_opts(Millis, true)`). Nothing is claimed
/// of the value: it is the clock.
#[verifier::external_body]
pub(crate) fn now() -> String {
    chrono::Utc::now().to_rfc3339_opts(chrono::SecondsFormat::Millis, true)
}

/// Microseconds since the Unix epoch, now (`Utc::now().timestamp_micros()`).
/// Which instant is the clock's; it is one chrono represents, as every
/// `DateTime<Utc>` is.
#[verifier::external_body]
pub(crate) fn now_micros() -> (r: i64)
    ensures
        in_chrono_range(r as int),
{
    chrono::Utc::now().timestamp_micros()
}

/// The instants chrono can represent, in microseconds since the epoch:
/// from January 1 of year -262143 to the last microsecond of December 31,
/// 262142 (`DateTime::<Utc>::MIN_UTC` to `MAX_UTC`).
pub open spec fn in_chrono_range(us: int) -> bool {
    -8_334_601_315_200_000_000 <= us <= 8_210_266_876_799_999_999
}

/// What `DateTime::from_timestamp_micros(us)` rendered with
/// `to_rfc3339_opts(Millis, true)` gives, for an instant in chrono's range.
pub uninterp spec fn rfc3339_of_micros(us: int) -> Seq<char>;

/// chrono: the instant `us` microseconds after the epoch as RFC 3339 text
/// (milliseconds, `Z`); None exactly where chrono cannot represent it
/// (`from_timestamp_micros` is None outside `MIN_UTC..=MAX_UTC`, and
/// `to_rfc3339_opts` always writes).
#[verifier::external_body]
pub(crate) fn rfc3339_millis(us: i64) -> (r: Option<String>)
    ensures
        r is Some <==> in_chrono_range(us as int),
        r matches Some(t) ==> t@ == rfc3339_of_micros(us as int),
{
    chrono::DateTime::<chrono::Utc>::from_timestamp_micros(us).map(
        |d| d.to_rfc3339_opts(chrono::SecondsFormat::Millis, true),
    )
}

/// What `s.parse::<DateTime<Utc>>()` gives: the instant as microseconds
/// since the epoch, or the text of chrono's parse error.
pub uninterp spec fn rfc3339_parsed(s: Seq<char>) -> Result<int, Seq<char>>;

/// chrono: parses an instant (`str::parse::<DateTime<Utc>>`) to
/// microseconds since the epoch, or the error's text.
#[verifier::external_body]
pub(crate) fn parse_rfc3339_micros(s: &str) -> (r: Result<i64, String>)
    ensures
        match r {
            Ok(x) => rfc3339_parsed(s@) == Ok::<int, Seq<char>>(x as int),
            Err(e) => rfc3339_parsed(s@) == Err::<int, Seq<char>>(e@),
        },
{
    match s.parse::<chrono::DateTime<chrono::Utc>>() {
        Ok(d) => Ok(d.timestamp_micros()),
        Err(e) => Err(e.to_string()),
    }
}

} // verus!
