//! Calendar dates as they are given in text.

use vstd::prelude::*;
use vstd::string::StringExecFns;

verus! {

/// A day of the calendar.
#[derive(Clone, Copy, Debug, PartialEq, Eq, Structural)]
pub struct CalendarDate {
    pub year: i32,
    /// The month, from 1 to 12.
    pub month: u32,
    /// The day of the month, from 1 to 31.
    pub day: u32,
}

/// The error of the `chrono` crate for a text that is no date.
#[verifier::external_type_specification]
#[verifier::external_body]
pub struct ExChronoParseError(chrono::ParseError);

/// The year, month and day that `NaiveDate::parse_from_str` of the `chrono`
/// crate reads from a text under a format, or `None` where it rejects the
/// text.
pub uninterp spec fn parsed_date(text: Seq<char>, format: Seq<char>) -> Option<(i32, u32, u32)>;

/// Reads a date from a text under a format.
///
/// Trusted: this is `NaiveDate::parse_from_str` of the `chrono` crate,
/// followed by `year`, `month` and `day` of its `Datelike`. What it reads
/// depends on the text and the format alone. A date that it reads has a
/// month from 1 to 12 and a day from 1 to 31.
#[verifier::external_body]
fn read_date(text: &str, format: &str) -> (r: Result<(i32, u32, u32), chrono::ParseError>)
    ensures
        r is Ok <==> parsed_date(text@, format@) is Some,
        r is Ok ==> r->Ok_0 == parsed_date(text@, format@)->Some_0,
        r is Ok ==> 1 <= r->Ok_0.1 <= 12 && 1 <= r->Ok_0.2 <= 31,
{
    match chrono::NaiveDate::parse_from_str(text, format) {
        Ok(date) => Ok(
            (
                chrono::Datelike::year(&date),
                chrono::Datelike::month(&date),
                chrono::Datelike::day(&date),
            ),
        ),
        Err(error) => Err(error),
    }
}

/// What the `chrono` crate says of a text that it rejected.
///
/// Trusted: this is the `Display` of `chrono::ParseError`. Nothing is
/// claimed of the wording.
#[verifier::external_body]
fn date_error_text(error: &chrono::ParseError) -> (text: String) {
    error.to_string()
}

/// A text that was to give a date and gives none.
#[derive(Clone, Debug)]
pub struct InvalidDate {
    /// Why the text was rejected, in words.
    pub reason: String,
}

/// The date that was read, or the error that says why none was: the wording
/// of the reading behind the words "Date invalide: ".
pub fn date_from_reading(reading: Result<(i32, u32, u32), String>) -> (r: Result<
    CalendarDate,
    InvalidDate,
>)
    ensures
        match reading {
            Ok(parts) => r is Ok && r->Ok_0 == (CalendarDate {
                year: parts.0,
                month: parts.1,
                day: parts.2,
            }),
            Err(wording) => r is Err && r->Err_0.reason@ == "Date invalide: "@ + wording@,
        },
{
    match reading {
        Ok(parts) => Ok(CalendarDate { year: parts.0, month: parts.1, day: parts.2 }),
        Err(wording) => {
            let mut reason = String::from_str("Date invalide: ");
            reason.append(wording.as_str());
            Err(InvalidDate { reason })
        },
    }
}

/// Reads a date written as year, month and day with hyphens between them.
pub fn parse_date(text: &str) -> (r: Result<CalendarDate, InvalidDate>)
    ensures
        r is Ok <==> parsed_date(text@, "%Y-%m-%d"@) is Some,
        r is Ok ==> ({
            let parts = parsed_date(text@, "%Y-%m-%d"@)->Some_0;
            &&& r->Ok_0 == CalendarDate { year: parts.0, month: parts.1, day: parts.2 }
            &&& 1 <= r->Ok_0.month <= 12
            &&& 1 <= r->Ok_0.day <= 31
        }),
{
    let reading = match read_date(text, "%Y-%m-%d") {
        Ok(parts) => Ok(parts),
        Err(error) => Err(date_error_text(&error)),
    };
    date_from_reading(reading)
}

/// Reads a date that may be left out.
pub fn parse_optional_date(value: Option<&str>) -> (r: Result<Option<CalendarDate>, InvalidDate>)
    ensures
        match value {
            None => r is Ok && r->Ok_0 is None,
            Some(text) => (r is Ok <==> parsed_date(text@, "%Y-%m-%d"@) is Some) && (r is Ok ==> ({
                let parts = parsed_date(text@, "%Y-%m-%d"@)->Some_0;
                r->Ok_0 == Some(CalendarDate { year: parts.0, month: parts.1, day: parts.2 })
            })),
        },
{
    match value {
        Some(text) => match parse_date(text) {
            Ok(date) => Ok(Some(date)),
            Err(e) => Err(e),
        },
        None => Ok(None),
    }
}

} // verus!
