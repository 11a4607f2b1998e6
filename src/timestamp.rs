use vstd::prelude::*;

verus! {

/// The instant, in seconds since the Unix epoch, that an RFC 3339 timestamp denotes, or
/// `None` where the text is no such timestamp.
pub uninterp spec fn rfc3339_seconds(s: Seq<char>) -> Option<i64>;

/// The RFC 3339 text (whole seconds, `Z` for UTC) of an instant given in seconds since the
/// Unix epoch, or `None` where the instant is out of the calendar's range.
pub uninterp spec fn rfc3339_text(t: i64) -> Option<Seq<char>>;

/// The instant of midnight UTC on the day that a `YYYY-MM-DD` date names, or `None` where
/// the text is no such date.
pub uninterp spec fn ymd_midnight_seconds(s: Seq<char>) -> Option<i64>;

/// Relies on chrono's `DateTime::parse_from_rfc3339` and `DateTime::timestamp`: the
/// offset-aware parse of the text, reduced to seconds since the epoch.
#[verifier::external_body]
pub(crate) fn parse_rfc3339_seconds(s: &str) -> (r: Option<i64>)
    ensures
        r == rfc3339_seconds(s@),
{
    match chrono::DateTime::parse_from_rfc3339(s) {
        Ok(d) => Some(d.timestamp()),
        Err(_) => None,
    }
}

/// Relies on chrono's `DateTime::from_timestamp` (range check) and
/// `DateTime::to_rfc3339_opts` with whole seconds and `Z`.
#[verifier::external_body]
pub(crate) fn format_rfc3339(t: i64) -> (r: Option<String>)
    ensures
        r is Some <==> rfc3339_text(t) is Some,
        r is Some ==> rfc3339_text(t) == Some(r->0@),
{
    match chrono::DateTime::from_timestamp(t, 0) {
        Some(d) => Some(d.to_rfc3339_opts(chrono::SecondsFormat::Secs, true)),
        None => None,
    }
}

/// Relies on chrono's `NaiveDate::parse_from_str` with the format `%Y-%m-%d`, then
/// `and_hms_opt(0, 0, 0)`, `and_utc` and `timestamp`.
#[verifier::external_body]
pub(crate) fn parse_ymd_midnight(s: &str) -> (r: Option<i64>)
    ensures
        r == ymd_midnight_seconds(s@),
{
    match chrono::NaiveDate::parse_from_str(s, "%Y-%m-%d") {
        Ok(d) => match d.and_hms_opt(0, 0, 0) {
            Some(m) => Some(m.and_utc().timestamp()),
            None => None,
        },
        Err(_) => None,
    }
}

/// Why a date given on the command line was refused.
#[derive(Debug, PartialEq, Eq, Structural, Clone, Copy)]
pub enum DateError {
    NotAYmdDate,
}

/// Reads a cutoff date `YYYY-MM-DD` as midnight UTC of that day.
pub fn iso_date_to_datetime(iso_date: &str) -> (r: Result<i64, DateError>)
    ensures
        ymd_midnight_seconds(iso_date@) is Some ==> r == Ok::<i64, DateError>(
            ymd_midnight_seconds(iso_date@)->0,
        ),
        ymd_midnight_seconds(iso_date@) is None ==> r == Err::<i64, DateError>(
            DateError::NotAYmdDate,
        ),
{
    match parse_ymd_midnight(iso_date) {
        Some(t) => Ok(t),
        None => Err(DateError::NotAYmdDate),
    }
}

/// Reads an optional "since" bound: absent stays absent, a malformed date is refused.
pub fn parse_since(since: Option<&str>) -> (r: Result<Option<i64>, DateError>)
    ensures
        since is None ==> r == Ok::<Option<i64>, DateError>(None),
        since is Some ==> (match ymd_midnight_seconds(since->0@) {
            Some(t) => r == Ok::<Option<i64>, DateError>(Some(t)),
            None => r == Err::<Option<i64>, DateError>(DateError::NotAYmdDate),
        }),
{
    match since {
        None => Ok(None),
        Some(s) => match iso_date_to_datetime(s) {
            Ok(t) => Ok(Some(t)),
            Err(e) => Err(e),
        },
    }
}

} // verus!
